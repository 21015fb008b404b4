//! Integer literals as `from_str_radix` and `str::parse` read them.
use vstd::prelude::*;

verus! {

/// The value of a digit character as `char::to_digit` sees it (36 for a non-digit).
pub open spec fn digit_value(c: char) -> int {
    if '0' <= c <= '9' {
        c as int - '0' as int
    } else if 'a' <= c <= 'z' {
        c as int - 'a' as int + 10
    } else if 'A' <= c <= 'Z' {
        c as int - 'A' as int + 10
    } else {
        36
    }
}

/// Every character of `d` is a digit in `radix`.
pub open spec fn all_digits(d: Seq<char>, radix: int) -> bool {
    forall|i: int| 0 <= i < d.len() ==> #[trigger] digit_value(d[i]) < radix
}

/// The number that the digits `d` spell in `radix`, most significant first.
pub open spec fn digits_value(d: Seq<char>, radix: int) -> int
    decreases d.len(),
{
    if d.len() == 0 {
        0
    } else {
        digits_value(d.drop_last(), radix) * radix + digit_value(d.last())
    }
}

/// The integer that `s` spells in `radix`: an optional `+` (or `-`, for a signed type) and at
/// least one digit, nothing else.
pub open spec fn parse_integer(s: Seq<char>, radix: int, signed: bool) -> Option<int> {
    if s.len() == 0 || (s.len() == 1 && (s[0] == '+' || s[0] == '-')) {
        None
    } else if s[0] == '+' {
        if all_digits(s.skip(1), radix) {
            Some(digits_value(s.skip(1), radix))
        } else {
            None
        }
    } else if s[0] == '-' && signed {
        if all_digits(s.skip(1), radix) {
            Some(-digits_value(s.skip(1), radix))
        } else {
            None
        }
    } else if all_digits(s, radix) {
        Some(digits_value(s, radix))
    } else {
        None
    }
}

/// `i32::from_str_radix(s, radix)`, as an option.
pub open spec fn parse_i32_spec(s: Seq<char>, radix: int) -> Option<i32> {
    match parse_integer(s, radix, true) {
        Some(v) => if i32::MIN <= v <= i32::MAX {
            Some(v as i32)
        } else {
            None
        },
        None => None,
    }
}

/// `s.parse::<u8>()`, as an option.
pub open spec fn parse_u8_spec(s: Seq<char>) -> Option<u8> {
    match parse_integer(s, 10, false) {
        Some(v) => if 0 <= v <= u8::MAX {
            Some(v as u8)
        } else {
            None
        },
        None => None,
    }
}

proof fn lemma_digits_value_grows(d: Seq<char>, radix: int, k: int)
    requires
        2 <= radix <= 36,
        all_digits(d, radix),
        0 <= k <= d.len(),
    ensures
        0 <= digits_value(d.take(k), radix) <= digits_value(d, radix),
    decreases d.len(),
{
    if k < d.len() {
        let t = d.drop_last();
        assert forall|i: int| 0 <= i < t.len() implies #[trigger] digit_value(t[i]) < radix by {
            assert(t[i] == d[i]);
        }
        lemma_digits_value_grows(t, radix, k);
        assert(t.take(k) =~= d.take(k));
        lemma_digits_value_grows(t, radix, t.len() as int);
        assert(t.take(t.len() as int) =~= t);
        let x = digits_value(t, radix);
        assert(digit_value(d[d.len() - 1]) >= 0);
        assert(x * radix >= x) by (nonlinear_arith)
            requires
                x >= 0,
                radix >= 2,
        ;
    } else {
        assert(d.take(k) =~= d);
        if d.len() > 0 {
            let t = d.drop_last();
            assert forall|i: int| 0 <= i < t.len() implies #[trigger] digit_value(t[i]) < radix by {
                assert(t[i] == d[i]);
            }
            lemma_digits_value_grows(t, radix, t.len() as int);
            assert(t.take(t.len() as int) =~= t);
            let x = digits_value(t, radix);
            assert(x * radix >= 0) by (nonlinear_arith)
                requires
                    x >= 0,
                    radix >= 2,
            ;
            assert(digit_value(d[d.len() - 1]) >= 0);
        }
    }
}

fn digit_of(c: char) -> (res: u32)
    ensures
        res == digit_value(c),
{
    if '0' <= c && c <= '9' {
        (c as u32) - ('0' as u32)
    } else if 'a' <= c && c <= 'z' {
        (c as u32) - ('a' as u32) + 10
    } else if 'A' <= c && c <= 'Z' {
        (c as u32) - ('A' as u32) + 10
    } else {
        36
    }
}

/// The value of the digits of `s` from `start` on, when they are all digits in `radix` and
/// the value is at most `limit`.
fn magnitude(s: &[char], start: usize, radix: u32, limit: u64) -> (res: Option<u64>)
    requires
        2 <= radix <= 36,
        start <= s@.len(),
        limit <= 0x1_0000_0000,
    ensures
        res is Some <==> (all_digits(s@.skip(start as int), radix as int) && digits_value(
            s@.skip(start as int),
            radix as int,
        ) <= limit),
        res matches Some(v) ==> v == digits_value(s@.skip(start as int), radix as int) && v <= limit,
{
    let ghost d = s@.skip(start as int);
    let n = s.len();
    let mut acc: u64 = 0;
    let mut i: usize = start;
    assert(d.take(0) =~= Seq::<char>::empty());
    while i < n
        invariant
            2 <= radix <= 36,
            start <= i <= n == s@.len(),
            limit <= 0x1_0000_0000,
            d == s@.skip(start as int),
            all_digits(d.take(i - start), radix as int),
            acc == digits_value(d.take(i - start), radix as int),
            acc <= limit,
        decreases n - i,
    {
        let dv = digit_of(s[i]);
        let ghost pre = d.take(i - start);
        let ghost next = d.take(i - start + 1);
        assert(next.drop_last() =~= pre);
        assert(next.last() == s@[i as int]);
        if dv >= radix {
            assert(!all_digits(d, radix as int)) by {
                assert(d[i - start] == s@[i as int]);
            }
            return None;
        }
        assert(acc * (radix as u64) <= 0x1_0000_0000 * 36) by (nonlinear_arith)
            requires
                acc <= 0x1_0000_0000,
                radix <= 36,
        ;
        acc = acc * (radix as u64) + (dv as u64);
        assert(all_digits(next, radix as int)) by {
            assert forall|k: int| 0 <= k < next.len() implies #[trigger] digit_value(next[k])
                < radix by {
                if k < next.len() - 1 {
                    assert(next[k] == pre[k]);
                }
            }
        }
        i = i + 1;
        if acc > limit {
            proof {
                if all_digits(d, radix as int) {
                    lemma_digits_value_grows(d, radix as int, i - start);
                }
            }
            return None;
        }
    }
    assert(d.take(n - start) =~= d);
    proof {
        lemma_digits_value_grows(d, radix as int, 0);
    }
    Some(acc)
}

/// `i32::from_str_radix(s, radix)`, as an option.
pub fn parse_i32(s: &[char], radix: u32) -> (res: Option<i32>)
    requires
        2 <= radix <= 36,
    ensures
        res == parse_i32_spec(s@, radix as int),
{
    let n = s.len();
    if n == 0 || (n == 1 && (s[0] == '+' || s[0] == '-')) {
        return None;
    }
    if s[0] == '+' {
        match magnitude(s, 1, radix, 0x7fff_ffff) {
            Some(v) => Some(v as i32),
            None => {
                proof {
                    if all_digits(s@.skip(1), radix as int) {
                        lemma_digits_value_grows(s@.skip(1), radix as int, 0);
                    }
                }
                None
            },
        }
    } else if s[0] == '-' {
        match magnitude(s, 1, radix, 0x8000_0000) {
            Some(v) => {
                let w = v as i64;
                Some((-w) as i32)
            },
            None => {
                proof {
                    if all_digits(s@.skip(1), radix as int) {
                        lemma_digits_value_grows(s@.skip(1), radix as int, 0);
                    }
                }
                None
            },
        }
    } else {
        assert(s@.skip(0) =~= s@);
        match magnitude(s, 0, radix, 0x7fff_ffff) {
            Some(v) => Some(v as i32),
            None => {
                proof {
                    if all_digits(s@, radix as int) {
                        lemma_digits_value_grows(s@, radix as int, 0);
                    }
                }
                None
            },
        }
    }
}

/// `s.parse::<u8>()`, as an option.
pub fn parse_u8(s: &[char]) -> (res: Option<u8>)
    ensures
        res == parse_u8_spec(s@),
{
    let n = s.len();
    if n == 0 || (n == 1 && (s[0] == '+' || s[0] == '-')) {
        return None;
    }
    let start: usize = if s[0] == '+' {
        1
    } else {
        0
    };
    assert(s@.skip(0) =~= s@);
    match magnitude(s, start, 10, 255) {
        Some(v) => Some(v as u8),
        None => {
            proof {
                if all_digits(s@.skip(start as int), 10) {
                    lemma_digits_value_grows(s@.skip(start as int), 10, 0);
                }
            }
            None
        },
    }
}

} // verus!
