use vstd::prelude::*;

verus! {

/// The characters of a string slice, in order.
pub fn chars_of(s: &str) -> (res: Vec<char>)
    ensures
        res@ == s@,
{
    let mut res: Vec<char> = Vec::new();
    for c in it: s.chars()
        invariant
            res@ == it.seq().take(it.index() as int),
            it.seq() == s@,
    {
        res.push(c);
    }
    res
}

/// Builds an owned string from a slice of characters (`FromIterator<char> for String`).
#[verifier::external_body]
pub(crate) fn string_from_chars(chars: &[char]) -> (res: String)
    ensures
        res@ == chars@,
{
    chars.iter().collect()
}

/// Unicode `White_Space`, the property that `char::is_whitespace` and `str::trim` use.
pub open spec fn is_white_space(c: char) -> bool {
    let x = c as u32;
    ||| 0x9 <= x <= 0xd
    ||| x == 0x20
    ||| x == 0x85
    ||| x == 0xa0
    ||| x == 0x1680
    ||| 0x2000 <= x <= 0x200a
    ||| x == 0x2028
    ||| x == 0x2029
    ||| x == 0x202f
    ||| x == 0x205f
    ||| x == 0x3000
}

pub fn white_space(c: char) -> (res: bool)
    ensures
        res == is_white_space(c),
{
    let x = c as u32;
    (0x9 <= x && x <= 0xd) || x == 0x20 || x == 0x85 || x == 0xa0 || x == 0x1680 || (0x2000 <= x
        && x <= 0x200a) || x == 0x2028 || x == 0x2029 || x == 0x202f || x == 0x205f || x == 0x3000
}

/// `s` without its leading white space.
pub open spec fn trim_start(s: Seq<char>) -> Seq<char>
    decreases s.len(),
{
    if s.len() > 0 && is_white_space(s[0]) {
        trim_start(s.drop_first())
    } else {
        s
    }
}

/// `s` without its trailing white space.
pub open spec fn trim_end(s: Seq<char>) -> Seq<char>
    decreases s.len(),
{
    if s.len() > 0 && is_white_space(s.last()) {
        trim_end(s.drop_last())
    } else {
        s
    }
}

/// What `str::trim` gives back: `s` without leading and trailing white space.
pub open spec fn trim(s: Seq<char>) -> Seq<char> {
    trim_end(trim_start(s))
}

proof fn lemma_trim_start_skip(s: Seq<char>, i: int)
    requires
        0 <= i <= s.len(),
        forall|k: int| 0 <= k < i ==> is_white_space(#[trigger] s[k]),
        i == s.len() || !is_white_space(s[i]),
    ensures
        trim_start(s) == s.skip(i),
    decreases i,
{
    if i > 0 {
        assert(is_white_space(s[0]));
        let t = s.drop_first();
        assert forall|k: int| 0 <= k < i - 1 implies is_white_space(#[trigger] t[k]) by {
            assert(t[k] == s[k + 1]);
        }
        lemma_trim_start_skip(t, i - 1);
        assert(t.skip(i - 1) =~= s.skip(i));
    } else {
        assert(s.skip(0) =~= s);
    }
}

proof fn lemma_trim_end_take(s: Seq<char>, j: int)
    requires
        0 <= j <= s.len(),
        forall|k: int| j <= k < s.len() ==> is_white_space(#[trigger] s[k]),
        j == 0 || !is_white_space(s[j - 1]),
    ensures
        trim_end(s) == s.take(j),
    decreases s.len() - j,
{
    if j < s.len() {
        assert(is_white_space(s.last()));
        let t = s.drop_last();
        assert forall|k: int| j <= k < t.len() implies is_white_space(#[trigger] t[k]) by {
            assert(t[k] == s[k]);
        }
        lemma_trim_end_take(t, j);
        assert(t.take(j) =~= s.take(j));
    } else {
        assert(s.take(j) =~= s);
    }
}

/// Where `trim` starts and ends in `s`: `trim(s) == s.subrange(start, end)`.
pub fn trim_bounds(s: &[char]) -> (res: (usize, usize))
    ensures
        res.0 <= res.1 <= s@.len(),
        trim(s@) == s@.subrange(res.0 as int, res.1 as int),
{
    let n = s.len();
    let mut i: usize = 0;
    while i < n && white_space(s[i])
        invariant
            i <= n == s@.len(),
            forall|k: int| 0 <= k < i ==> is_white_space(#[trigger] s@[k]),
        decreases n - i,
    {
        i = i + 1;
    }
    proof {
        lemma_trim_start_skip(s@, i as int);
    }
    let ghost t = s@.skip(i as int);
    let mut j: usize = n;
    while j > i && white_space(s[j - 1])
        invariant
            i <= j <= n == s@.len(),
            t == s@.skip(i as int),
            forall|k: int| j <= k < n ==> is_white_space(#[trigger] s@[k]),
        decreases j,
    {
        j = j - 1;
    }
    proof {
        assert forall|k: int| j - i <= k < t.len() implies is_white_space(#[trigger] t[k]) by {
            assert(t[k] == s@[k + i]);
        }
        if j > i {
            assert(t[j - i - 1] == s@[j - 1]);
        }
        lemma_trim_end_take(t, j - i);
        assert(t.take(j - i) =~= s@.subrange(i as int, j as int));
    }
    (i, j)
}

/// The characters of `s` between `from` and `to`.
pub fn slice_chars(s: &[char], from: usize, to: usize) -> (res: Vec<char>)
    requires
        from <= to <= s@.len(),
    ensures
        res@ == s@.subrange(from as int, to as int),
{
    let mut res: Vec<char> = Vec::new();
    let mut k = from;
    while k < to
        invariant
            from <= k <= to <= s@.len(),
            res@ == s@.subrange(from as int, k as int),
        decreases to - k,
    {
        res.push(s[k]);
        k = k + 1;
        assert(res@ =~= s@.subrange(from as int, k as int));
    }
    res
}

/// `str::trim` on a sequence of characters.
pub fn trim_chars(s: &[char]) -> (res: Vec<char>)
    ensures
        res@ == trim(s@),
{
    let (i, j) = trim_bounds(s);
    slice_chars(s, i, j)
}

/// Trimming twice is trimming once.
pub proof fn lemma_trim_idempotent(s: Seq<char>)
    ensures
        trim(trim(s)) == trim(s),
        trim(s).len() == 0 || (!is_white_space(trim(s)[0]) && !is_white_space(trim(s).last())),
{
    lemma_trim_shape(s);
    let t = trim(s);
    if t.len() > 0 {
        lemma_trim_start_skip(t, 0);
        assert(t.skip(0) =~= t);
        lemma_trim_end_take(t, t.len() as int);
        assert(t.take(t.len() as int) =~= t);
    } else {
        assert(trim_start(t) == t);
        assert(trim_end(t) == t);
    }
}

proof fn lemma_trim_start_shape(s: Seq<char>)
    ensures
        trim_start(s).len() == 0 || !is_white_space(trim_start(s)[0]),
        trim_start(s).len() <= s.len(),
        trim_start(s) == s.skip(s.len() - trim_start(s).len()),
    decreases s.len(),
{
    if s.len() > 0 && is_white_space(s[0]) {
        lemma_trim_start_shape(s.drop_first());
        assert(s.drop_first().skip(s.drop_first().len() - trim_start(s).len()) =~= s.skip(
            s.len() - trim_start(s).len(),
        ));
    } else {
        assert(s.skip(0) =~= s);
    }
}

proof fn lemma_trim_end_shape(s: Seq<char>)
    ensures
        trim_end(s).len() == 0 || !is_white_space(trim_end(s).last()),
        trim_end(s) == s.take(trim_end(s).len() as int),
        trim_end(s).len() <= s.len(),
    decreases s.len(),
{
    if s.len() > 0 && is_white_space(s.last()) {
        lemma_trim_end_shape(s.drop_last());
        assert(s.drop_last().take(trim_end(s).len() as int) =~= s.take(trim_end(s).len() as int));
    } else {
        assert(s.take(s.len() as int) =~= s);
    }
}

proof fn lemma_trim_shape(s: Seq<char>)
    ensures
        trim(s).len() == 0 || (!is_white_space(trim(s)[0]) && !is_white_space(trim(s).last())),
{
    let a = trim_start(s);
    lemma_trim_start_shape(s);
    lemma_trim_end_shape(a);
    let b = trim_end(a);
    if b.len() > 0 {
        assert(b[0] == a[0]);
    }
}


proof fn lemma_trim_start_all_white(s: Seq<char>)
    requires
        trim_start(s).len() == 0,
    ensures
        forall|k: int| 0 <= k < s.len() ==> is_white_space(#[trigger] s[k]),
    decreases s.len(),
{
    if s.len() > 0 {
        lemma_trim_start_all_white(s.drop_first());
        assert forall|k: int| 0 <= k < s.len() implies is_white_space(#[trigger] s[k]) by {
            if k > 0 {
                assert(s[k] == s.drop_first()[k - 1]);
            }
        }
    }
}

proof fn lemma_trim_end_all_white(s: Seq<char>)
    requires
        trim_end(s).len() == 0,
    ensures
        forall|k: int| 0 <= k < s.len() ==> is_white_space(#[trigger] s[k]),
    decreases s.len(),
{
    if s.len() > 0 {
        lemma_trim_end_all_white(s.drop_last());
        assert forall|k: int| 0 <= k < s.len() implies is_white_space(#[trigger] s[k]) by {
            if k < s.len() - 1 {
                assert(s[k] == s.drop_last()[k]);
            }
        }
    }
}

/// Trimming keeps a contiguous part of `s`, and keeps something whenever `s` holds a
/// character that is not white space.
pub proof fn lemma_trim_keeps(s: Seq<char>) -> (a: int)
    ensures
        0 <= a,
        a + trim(s).len() <= s.len(),
        trim(s) == s.subrange(a, a + trim(s).len()),
        (exists|k: int| 0 <= k < s.len() && !is_white_space(#[trigger] s[k])) ==> trim(s).len() > 0,
{
    let t = trim_start(s);
    lemma_trim_start_shape(s);
    lemma_trim_end_shape(t);
    let a = s.len() - t.len();
    assert(trim(s) == s.subrange(a, a + trim(s).len()));
    if trim(s).len() == 0 {
        lemma_trim_end_all_white(t);
        if t.len() > 0 {
            assert(is_white_space(t[0]));
        }
        lemma_trim_start_all_white(s);
    }
    a
}

/// The characters at which a string is cut into pieces.
#[derive(Clone, Copy, Debug, PartialEq, Eq, Structural)]
pub enum Separator {
    /// `,`
    Comma,
    /// `\n`
    Newline,
    /// `\n`, `\r` or `:`
    StatementBreak,
    /// `&` or `+`
    Concatenation,
}

pub open spec fn separates(sep: Separator, c: char) -> bool {
    match sep {
        Separator::Comma => c == ',',
        Separator::Newline => c == '\n',
        Separator::StatementBreak => c == '\n' || c == '\r' || c == ':',
        Separator::Concatenation => c == '&' || c == '+',
    }
}

pub fn is_separator(sep: Separator, c: char) -> (res: bool)
    ensures
        res == separates(sep, c),
{
    match sep {
        Separator::Comma => c == ',',
        Separator::Newline => c == '\n',
        Separator::StatementBreak => c == '\n' || c == '\r' || c == ':',
        Separator::Concatenation => c == '&' || c == '+',
    }
}

/// What `str::split` gives back for a separator: the pieces between separators,
/// empty ones included; a string without separators is one piece.
pub open spec fn split_by(s: Seq<char>, sep: Separator) -> Seq<Seq<char>>
    decreases s.len(),
{
    if s.len() == 0 {
        seq![Seq::<char>::empty()]
    } else {
        let rest = split_by(s.drop_last(), sep);
        if separates(sep, s.last()) {
            rest.push(Seq::<char>::empty())
        } else {
            rest.update(rest.len() - 1, rest.last().push(s.last()))
        }
    }
}

/// Splitting always gives at least one piece, and one more than there are separators.
pub proof fn lemma_split_by_len(s: Seq<char>, sep: Separator)
    ensures
        split_by(s, sep).len() >= 1,
    decreases s.len(),
{
    if s.len() > 0 {
        lemma_split_by_len(s.drop_last(), sep);
    }
}

/// `str::split` on a sequence of characters.
pub fn split_chars(s: &[char], sep: Separator) -> (res: Vec<Vec<char>>)
    ensures
        res.deep_view() == split_by(s@, sep),
{
    let mut pieces: Vec<Vec<char>> = Vec::new();
    let mut cur: Vec<char> = Vec::new();
    let n = s.len();
    let mut i: usize = 0;
    assert(s@.take(0) =~= Seq::<char>::empty());
    while i < n
        invariant
            i <= n == s@.len(),
            pieces.deep_view().push(cur@) == split_by(s@.take(i as int), sep),
        decreases n - i,
    {
        let c = s[i];
        let ghost before = s@.take(i as int);
        proof {
            lemma_split_by_len(before, sep);
            assert(s@.take(i + 1).drop_last() =~= before);
        }
        if is_separator(sep, c) {
            let ghost old_dv = pieces.deep_view();
            let ghost old_cur = cur@;
            let piece = cur;
            assert(piece.deep_view() =~= piece@);
            pieces.push(piece);
            cur = Vec::new();
            assert(pieces.deep_view() =~= old_dv.push(old_cur));
            assert(pieces.deep_view().push(cur@) =~= split_by(s@.take(i + 1), sep));
        } else {
            let ghost old_cur = cur@;
            assert(s@.take(i + 1).last() == c);
            cur.push(c);
            assert(pieces.deep_view().push(cur@) =~= pieces.deep_view().push(old_cur).update(
                pieces.deep_view().len() as int,
                old_cur.push(c),
            ));
        }
        i = i + 1;
    }
    assert(s@.take(n as int) =~= s@);
    let ghost old_dv = pieces.deep_view();
    let ghost last = cur@;
    assert(cur.deep_view() =~= cur@);
    pieces.push(cur);
    assert(pieces.deep_view() =~= old_dv.push(last));
    pieces
}

/// A sequence in the order of first occurrence, each item once.
pub open spec fn dedup<A>(s: Seq<A>) -> Seq<A>
    decreases s.len(),
{
    if s.len() == 0 {
        Seq::<A>::empty()
    } else {
        let d = dedup(s.drop_last());
        if d.contains(s.last()) {
            d
        } else {
            d.push(s.last())
        }
    }
}

/// What `dedup` keeps: every item of `s` and nothing else, none twice.
pub proof fn lemma_dedup<A>(s: Seq<A>)
    ensures
        forall|x: A| #[trigger] dedup(s).contains(x) <==> s.contains(x),
        forall|i: int, j: int|
            0 <= i < j < dedup(s).len() ==> dedup(s)[i] != dedup(s)[j],
    decreases s.len(),
{
    if s.len() > 0 {
        let t = s.drop_last();
        lemma_dedup(t);
        let d = dedup(t);
        assert forall|x: A| s.contains(x) implies #[trigger] dedup(s).contains(x) by {
            let k = choose|k: int| 0 <= k < s.len() && s[k] == x;
            if k < s.len() - 1 {
                assert(t[k] == x);
                assert(t.contains(x));
                assert(d.contains(x));
                let m = choose|m: int| 0 <= m < d.len() && d[m] == x;
                if !d.contains(s.last()) {
                    assert(dedup(s)[m] == x);
                }
            } else {
                if !d.contains(x) {
                    assert(dedup(s)[d.len() as int] == x);
                }
            }
        }
        assert forall|x: A| #[trigger] dedup(s).contains(x) implies s.contains(x) by {
            let k = choose|k: int| 0 <= k < dedup(s).len() && dedup(s)[k] == x;
            if k < d.len() {
                assert(dedup(s)[k] == d[k]);
                assert(d.contains(x));
                assert(t.contains(x));
                let m = choose|m: int| 0 <= m < t.len() && t[m] == x;
                assert(s[m] == x);
            } else {
                assert(s[s.len() - 1] == x);
            }
        }
        assert forall|i: int, j: int| 0 <= i < j < dedup(s).len() implies dedup(s)[i] != dedup(
            s,
        )[j] by {
            if j == d.len() {
                assert(dedup(s)[i] == d[i]);
                assert(!d.contains(s.last()));
            }
        }
    }
}

/// Items that already stand once stay as they are.
pub proof fn lemma_dedup_of_distinct<A>(s: Seq<A>)
    requires
        forall|i: int, j: int| 0 <= i < j < s.len() ==> s[i] != s[j],
    ensures
        dedup(s) == s,
    decreases s.len(),
{
    if s.len() > 0 {
        let t = s.drop_last();
        lemma_dedup_of_distinct(t);
        if t.contains(s.last()) {
            let k = choose|k: int| 0 <= k < t.len() && t[k] == s.last();
            assert(s[k] == s[s.len() - 1]);
        }
        assert(t.push(s.last()) =~= s);
    }
}

/// Does `v` hold a string equal to `x`?
pub fn holds_string(v: &Vec<String>, x: &String) -> (res: bool)
    ensures
        res == v.deep_view().contains(x@),
{
    let n = v.len();
    let mut i: usize = 0;
    while i < n
        invariant
            i <= n == v@.len(),
            forall|k: int| 0 <= k < i ==> v.deep_view()[k] != x@,
        decreases n - i,
    {
        if v[i] == *x {
            assert(v.deep_view()[i as int] == x@);
            return true;
        }
        i = i + 1;
    }
    false
}

/// Adds `x` unless an equal string is already there.
pub fn push_unique(v: &mut Vec<String>, x: String)
    ensures
        final(v).deep_view() == if old(v).deep_view().contains(x@) {
            old(v).deep_view()
        } else {
            old(v).deep_view().push(x@)
        },
{
    if !holds_string(v, &x) {
        v.push(x);
        assert(v.deep_view() =~= old(v).deep_view().push(x@));
    }
}

/// The strings of `v` in the order of first occurrence, each once.
pub fn dedup_strings(v: Vec<String>) -> (res: Vec<String>)
    ensures
        res.deep_view() == dedup(v.deep_view()),
{
    let mut res: Vec<String> = Vec::new();
    let n = v.len();
    let mut i: usize = 0;
    assert(v.deep_view().take(0) =~= Seq::<Seq<char>>::empty());
    while i < n
        invariant
            i <= n == v@.len(),
            res.deep_view() == dedup(v.deep_view().take(i as int)),
        decreases n - i,
    {
        let x = v[i].clone();
        assert(v.deep_view().take(i + 1).drop_last() =~= v.deep_view().take(i as int));
        push_unique(&mut res, x);
        i = i + 1;
    }
    assert(v.deep_view().take(n as int) =~= v.deep_view());
    res
}

/// The characters of `s` in reverse order.
pub fn reverse_chars(s: &[char]) -> (res: Vec<char>)
    ensures
        res@ == s@.reverse(),
{
    let mut res: Vec<char> = Vec::new();
    let n = s.len();
    let mut k: usize = n;
    while k > 0
        invariant
            k <= n == s@.len(),
            res@ == s@.subrange(k as int, n as int).reverse(),
        decreases k,
    {
        k = k - 1;
        res.push(s[k]);
        assert(res@ =~= s@.subrange(k as int, n as int).reverse());
    }
    assert(s@.subrange(0, n as int) =~= s@);
    res
}

/// `char::to_ascii_lowercase`.
pub open spec fn ascii_lower(c: char) -> char {
    if 'A' <= c <= 'Z' {
        ((c as u32) + 32) as char
    } else {
        c
    }
}

pub fn to_ascii_lower(c: char) -> (res: char)
    ensures
        res == ascii_lower(c),
{
    if 'A' <= c && c <= 'Z' {
        ((c as u8) + 32) as char
    } else {
        c
    }
}

/// Does `needle` stand in `hay` at position `i`?
pub open spec fn occurs_at(hay: Seq<char>, needle: Seq<char>, i: int) -> bool {
    0 <= i && i + needle.len() <= hay.len() && hay.subrange(i, i + needle.len()) == needle
}

/// Does `needle` stand somewhere in `hay` (`str::contains`)?
pub open spec fn occurs_in(hay: Seq<char>, needle: Seq<char>) -> bool {
    exists|i: int| occurs_at(hay, needle, i)
}

pub fn matches_at(hay: &[char], needle: &[char], i: usize) -> (res: bool)
    ensures
        res == occurs_at(hay@, needle@, i as int),
{
    if i > hay.len() || needle.len() > hay.len() - i {
        return false;
    }
    let m = needle.len();
    let mut k: usize = 0;
    while k < m
        invariant
            k <= m == needle@.len(),
            i + m <= hay@.len() <= usize::MAX,
            forall|t: int| 0 <= t < k ==> hay@[i + t] == needle@[t],
        decreases m - k,
    {
        if hay[i + k] != needle[k] {
            assert(hay@.subrange(i as int, i + m)[k as int] != needle@[k as int]);
            return false;
        }
        k = k + 1;
    }
    assert(hay@.subrange(i as int, i + m) =~= needle@);
    true
}

pub fn contains_chars(hay: &[char], needle: &[char]) -> (res: bool)
    ensures
        res == occurs_in(hay@, needle@),
{
    let n = hay.len();
    let mut i: usize = 0;
    loop
        invariant
            n == hay@.len(),
            i <= n,
            forall|t: int| 0 <= t < i ==> !occurs_at(hay@, needle@, t),
        decreases n - i,
    {
        if matches_at(hay, needle, i) {
            return true;
        }
        if i == n {
            assert forall|t: int| !occurs_at(hay@, needle@, t) by {
                if 0 <= t && t < i {
                }
            }
            return false;
        }
        i = i + 1;
    }
}

/// A line without the `\r` of a `\r\n` ending.
pub open spec fn strip_cr(l: Seq<char>) -> Seq<char> {
    if l.len() > 0 && l.last() == '\r' {
        l.drop_last()
    } else {
        l
    }
}

/// What `str::lines` gives back: the pieces between `\n`, each without a `\r` that
/// stood before its `\n`; a final `\n` opens no further line.
pub open spec fn lines(s: Seq<char>) -> Seq<Seq<char>> {
    let p = split_by(s, Separator::Newline);
    let body = p.drop_last().map_values(|l: Seq<char>| strip_cr(l));
    if p.last().len() == 0 {
        body
    } else {
        body.push(p.last())
    }
}

fn strip_cr_chars(l: &Vec<char>) -> (res: Vec<char>)
    ensures
        res@ == strip_cr(l@),
{
    let n = l.len();
    if n > 0 && l[n - 1] == '\r' {
        slice_chars(l.as_slice(), 0, n - 1)
    } else {
        let res = slice_chars(l.as_slice(), 0, n);
        assert(l@.subrange(0, n as int) =~= l@);
        res
    }
}

/// `str::lines` on a sequence of characters.
pub fn lines_of(s: &[char]) -> (res: Vec<Vec<char>>)
    ensures
        res.deep_view() == lines(s@),
{
    let p = split_chars(s, Separator::Newline);
    proof {
        lemma_split_by_len(s@, Separator::Newline);
    }
    let ghost pv = p.deep_view();
    let m = p.len() - 1;
    let mut out: Vec<Vec<char>> = Vec::new();
    let mut i: usize = 0;
    while i < m
        invariant
            i <= m,
            m + 1 == p@.len(),
            pv == p.deep_view(),
            out.deep_view() == pv.drop_last().take(i as int).map_values(|l: Seq<char>| strip_cr(l)),
        decreases m - i,
    {
        assert(p[i as int].deep_view() =~= p[i as int]@);
        let piece = strip_cr_chars(&p[i]);
        let ghost before = out.deep_view();
        assert(piece.deep_view() =~= piece@);
        out.push(piece);
        i = i + 1;
        assert(out.deep_view() =~= before.push(piece@));
        assert(out.deep_view() =~= pv.drop_last().take(i as int).map_values(
            |l: Seq<char>| strip_cr(l),
        ));
    }
    assert(pv.drop_last().take(m as int) =~= pv.drop_last());
    assert(p[m as int].deep_view() =~= p[m as int]@);
    if p[m].len() > 0 {
        let last = slice_chars(p[m].as_slice(), 0, p[m].len());
        assert(p[m as int]@.subrange(0, p[m as int]@.len() as int) =~= p[m as int]@);
        let ghost before = out.deep_view();
        assert(last.deep_view() =~= last@);
        out.push(last);
        assert(out.deep_view() =~= before.push(pv.last()));
    }
    out
}

/// A string without separators is one piece.
pub proof fn lemma_split_no_separator(s: Seq<char>, sep: Separator)
    requires
        forall|i: int| 0 <= i < s.len() ==> !separates(sep, #[trigger] s[i]),
    ensures
        split_by(s, sep) == seq![s],
    decreases s.len(),
{
    if s.len() > 0 {
        let t = s.drop_last();
        assert forall|i: int| 0 <= i < t.len() implies !separates(sep, #[trigger] t[i]) by {
            assert(t[i] == s[i]);
        }
        lemma_split_no_separator(t, sep);
        assert(!separates(sep, s[s.len() - 1]));
        assert(t.push(s.last()) =~= s);
        assert(seq![t].update(0, t.push(s.last())) =~= seq![s]);
    } else {
        assert(s =~= Seq::<char>::empty());
    }
}

/// No piece holds a separator.
pub proof fn lemma_split_pieces_clean(s: Seq<char>, sep: Separator)
    ensures
        forall|k: int, j: int|
            #![trigger split_by(s, sep)[k][j]]
            0 <= k < split_by(s, sep).len() && 0 <= j < split_by(s, sep)[k].len() ==> !separates(
                sep,
                split_by(s, sep)[k][j],
            ),
    decreases s.len(),
{
    if s.len() > 0 {
        let t = s.drop_last();
        lemma_split_pieces_clean(t, sep);
        lemma_split_by_len(t, sep);
        let r = split_by(t, sep);
        let q = split_by(s, sep);
        assert forall|k: int, j: int|
            0 <= k < q.len() && 0 <= j < q[k].len() implies !separates(sep, #[trigger] q[k][j]) by {
            if separates(sep, s.last()) {
                if k < r.len() {
                    assert(q[k] == r[k]);
                }
            } else {
                if k < r.len() - 1 {
                    assert(q[k] == r[k]);
                } else {
                    let p = r.last().push(s.last());
                    assert(q[k] == p);
                    if j < r.last().len() {
                        assert(p[j] == r[r.len() - 1][j]);
                    }
                }
            }
        }
    }
}

/// Cutting at a separator: the pieces of `s`, a separator and `t` are those of `s` followed by
/// those of `t`.
pub proof fn lemma_split_join(s: Seq<char>, c: char, t: Seq<char>, sep: Separator)
    requires
        separates(sep, c),
    ensures
        split_by(s.push(c) + t, sep) == split_by(s, sep) + split_by(t, sep),
    decreases t.len(),
{
    let u = s.push(c) + t;
    let empty = Seq::<char>::empty();
    if t.len() == 0 {
        assert(u =~= s.push(c));
        assert(u.drop_last() =~= s);
        assert(split_by(s, sep) + seq![empty] =~= split_by(s, sep).push(empty));
    } else {
        let t0 = t.drop_last();
        lemma_split_join(s, c, t0, sep);
        assert(u.drop_last() =~= s.push(c) + t0);
        assert(u.last() == t.last());
        lemma_split_by_len(t0, sep);
        let a = split_by(s, sep);
        let b = split_by(t0, sep);
        if separates(sep, t.last()) {
            assert((a + b).push(empty) =~= a + b.push(empty));
        } else {
            assert((a + b).update((a + b).len() - 1, (a + b).last().push(t.last())) =~= a + b.update(
                b.len() - 1,
                b.last().push(t.last()),
            ));
        }
    }
}

proof fn lemma_trim_start_push(p: Seq<char>, w: char)
    requires
        is_white_space(w),
    ensures
        trim_start(p.push(w)) == if trim_start(p).len() == 0 {
            Seq::<char>::empty()
        } else {
            trim_start(p).push(w)
        },
    decreases p.len(),
{
    assert(p.push(w)[0] == if p.len() == 0 { w } else { p[0] });
    if p.len() == 0 {
        assert(p.push(w).drop_first() =~= Seq::<char>::empty());
        assert(trim_start(Seq::<char>::empty()) == Seq::<char>::empty());
    } else if is_white_space(p[0]) {
        assert(p.push(w).drop_first() =~= p.drop_first().push(w));
        lemma_trim_start_push(p.drop_first(), w);
    }
}

/// White space at the end does not change what trimming gives.
pub proof fn lemma_trim_push_white(p: Seq<char>, w: char)
    requires
        is_white_space(w),
    ensures
        trim(p.push(w)) == trim(p),
{
    lemma_trim_start_push(p, w);
    let t = trim_start(p);
    if t.len() > 0 {
        assert(t.push(w).drop_last() =~= t);
    }
}

/// White space at the start does not change what trimming gives.
pub proof fn lemma_trim_prefix_white(w: Seq<char>, p: Seq<char>)
    requires
        forall|i: int| 0 <= i < w.len() ==> is_white_space(#[trigger] w[i]),
    ensures
        trim(w + p) == trim(p),
    decreases w.len(),
{
    if w.len() > 0 {
        let w0 = w.drop_first();
        assert((w + p)[0] == w[0]);
        assert((w + p).drop_first() =~= w0 + p);
        assert forall|i: int| 0 <= i < w0.len() implies is_white_space(#[trigger] w0[i]) by {
            assert(w0[i] == w[i + 1]);
        }
        lemma_trim_prefix_white(w0, p);
    } else {
        assert(w + p =~= p);
    }
}

/// Dropping the `\r` of a line ending does not change what trimming gives.
pub proof fn lemma_trim_strip_cr(x: Seq<char>)
    ensures
        trim(strip_cr(x)) == trim(x),
{
    if x.len() > 0 && x.last() == '\r' {
        assert(x.drop_last().push('\r') =~= x);
        lemma_trim_push_white(x.drop_last(), '\r');
    }
}

/// `d` followed by the items of `b` that are not there yet, each once, in order.
pub open spec fn extend_unique<A>(d: Seq<A>, b: Seq<A>) -> Seq<A>
    decreases b.len(),
{
    if b.len() == 0 {
        d
    } else {
        let e = extend_unique(d, b.drop_last());
        if e.contains(b.last()) {
            e
        } else {
            e.push(b.last())
        }
    }
}

proof fn lemma_dedup_append<A>(a: Seq<A>, b: Seq<A>)
    ensures
        dedup(a + b) == extend_unique(dedup(a), b),
    decreases b.len(),
{
    if b.len() == 0 {
        assert(a + b =~= a);
    } else {
        lemma_dedup_append(a, b.drop_last());
        assert((a + b).drop_last() =~= a + b.drop_last());
        assert((a + b).last() == b.last());
    }
}

proof fn lemma_extend_contains<A>(d: Seq<A>, b: Seq<A>)
    ensures
        forall|x: A| #[trigger] extend_unique(d, b).contains(x) <==> (d.contains(x) || b.contains(x)),
    decreases b.len(),
{
    if b.len() > 0 {
        let b0 = b.drop_last();
        let y = b.last();
        lemma_extend_contains(d, b0);
        let e = extend_unique(d, b0);
        assert forall|x: A| #[trigger] extend_unique(d, b).contains(x) <==> (d.contains(x)
            || b.contains(x)) by {
            if b0.contains(x) {
                let k = choose|k: int| 0 <= k < b0.len() && b0[k] == x;
                assert(b[k] == x);
            }
            if x == y {
                assert(b[b.len() - 1] == x);
            }
            if b.contains(x) {
                let k = choose|k: int| 0 <= k < b.len() && b[k] == x;
                if k < b.len() - 1 {
                    assert(b0[k] == x);
                }
            }
            if extend_unique(d, b).contains(x) {
                let k = choose|k: int|
                    0 <= k < extend_unique(d, b).len() && extend_unique(d, b)[k] == x;
                if !e.contains(y) && k == e.len() {
                    assert(x == y);
                } else {
                    assert(extend_unique(d, b)[k] == e[k]);
                    assert(e.contains(x));
                }
            }
            if e.contains(x) {
                let k = choose|k: int| 0 <= k < e.len() && e[k] == x;
                if !e.contains(y) {
                    assert(extend_unique(d, b)[k] == x);
                }
            }
            if x == y && !e.contains(y) {
                assert(extend_unique(d, b)[e.len() as int] == x);
            }
        }
    }
}

proof fn lemma_extend_dedup<A>(d: Seq<A>, b: Seq<A>)
    ensures
        extend_unique(d, b) == extend_unique(d, dedup(b)),
    decreases b.len(),
{
    if b.len() > 0 {
        let b0 = b.drop_last();
        let x = b.last();
        lemma_extend_dedup(d, b0);
        let db0 = dedup(b0);
        lemma_dedup(b0);
        if db0.contains(x) {
            lemma_extend_contains(d, b0);
            assert(extend_unique(d, b0).contains(x));
        } else {
            assert(db0.push(x).drop_last() =~= db0);
        }
    }
}

/// Taking each item once of two lists that already hold each item once, one after the
/// other, is taking each item once of the two lists joined.
pub proof fn lemma_dedup_merge<A>(a: Seq<A>, b: Seq<A>)
    ensures
        dedup(dedup(a) + dedup(b)) == dedup(a + b),
{
    lemma_dedup_append(dedup(a), dedup(b));
    lemma_dedup(a);
    lemma_dedup_of_distinct(dedup(a));
    lemma_extend_dedup(dedup(a), b);
    lemma_dedup_append(a, b);
}

/// What `str::to_uppercase` gives back for `s` (Unicode case mapping; a character may map
/// to several).
pub uninterp spec fn unicode_uppercase(s: Seq<char>) -> Seq<char>;

/// What `str::to_lowercase` gives back for `s` (Unicode case mapping; a character may map
/// to several).
pub uninterp spec fn unicode_lowercase(s: Seq<char>) -> Seq<char>;

/// Calls `str::to_uppercase`; the contract claims only that the result is
/// `unicode_uppercase` of the argument.
#[verifier::external_body]
pub(crate) fn to_uppercase(s: &str) -> (res: String)
    ensures
        res@ == unicode_uppercase(s@),
{
    s.to_uppercase()
}

/// Calls `str::to_lowercase`; the contract claims only that the result is
/// `unicode_lowercase` of the argument.
#[verifier::external_body]
pub(crate) fn to_lowercase(s: &str) -> (res: String)
    ensures
        res@ == unicode_lowercase(s@),
{
    s.to_lowercase()
}

} // verus!
