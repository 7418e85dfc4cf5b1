//! Decimal text of integers.
use vstd::prelude::*;

use crate::text::push_char;

verus! {

/// The character of decimal digit `d`.
pub open spec fn digit_char(d: int) -> char {
    (48 + d) as char
}

/// The decimal digits of `n`, without leading zeros.
pub open spec fn dec(n: nat) -> Seq<char>
    decreases n,
{
    if n < 10 {
        seq![digit_char(n as int)]
    } else {
        dec(n / 10).push(digit_char((n % 10) as int))
    }
}

/// The decimal text of `n`, with a leading minus for negatives.
pub open spec fn signed_dec(n: int) -> Seq<char> {
    if n < 0 {
        seq!['-'] + dec((-n) as nat)
    } else {
        dec(n as nat)
    }
}

/// `s` padded with leading zeros to at least `w` characters.
pub open spec fn zero_pad(s: Seq<char>, w: nat) -> Seq<char> {
    if s.len() >= w {
        s
    } else {
        Seq::new((w - s.len()) as nat, |i: int| '0') + s
    }
}

fn digit(d: u64) -> (c: char)
    requires
        d < 10,
    ensures
        c == digit_char(d as int),
{
    match d {
        0 => '0',
        1 => '1',
        2 => '2',
        3 => '3',
        4 => '4',
        5 => '5',
        6 => '6',
        7 => '7',
        8 => '8',
        _ => '9',
    }
}

/// The digits of `n`, most significant first.
fn digits_of(n: u64) -> (v: Vec<char>)
    ensures
        v@ == dec(n as nat),
    decreases n,
{
    if n < 10 {
        let mut v = Vec::new();
        v.push(digit(n));
        v
    } else {
        let mut v = digits_of(n / 10);
        v.push(digit(n % 10));
        v
    }
}

/// Appends the decimal text of `n`, padded with zeros to `width`.
pub fn append_padded(s: &mut String, n: u64, width: usize)
    ensures
        final(s)@ == old(s)@ + zero_pad(dec(n as nat), width as nat),
{
    let v = digits_of(n);
    let mut k = v.len();
    let ghost start = s@;
    while k < width
        invariant
            v@ == dec(n as nat),
            v.len() <= k <= (if width > v.len() { width } else { v.len() }),
            s@ == start + Seq::new((k - v.len()) as nat, |i: int| '0'),
        decreases width - k,
    {
        push_char(s, '0');
        proof {
            assert(Seq::new((k + 1 - v.len()) as nat, |i: int| '0') =~= Seq::new((k - v.len()) as nat, |i: int| '0').push('0'));
        }
        k = k + 1;
    }
    let ghost mid = s@;
    let mut i: usize = 0;
    while i < v.len()
        invariant
            i <= v.len(),
            s@ == mid + v@.take(i as int),
        decreases v.len() - i,
    {
        push_char(s, v[i]);
        proof {
            assert(v@.take(i + 1) =~= v@.take(i as int).push(v@[i as int]));
        }
        i = i + 1;
    }
    proof {
        assert(v@.take(i as int) =~= v@);
        if v.len() >= width {
            assert(Seq::new((k - v.len()) as nat, |i: int| '0') =~= Seq::<char>::empty());
            assert(s@ =~= start + v@);
        } else {
            assert(s@ =~= start + (Seq::new((width - v.len()) as nat, |i: int| '0') + v@));
        }
    }
}

/// Appends the decimal text of `n`.
pub fn append_u64(s: &mut String, n: u64)
    ensures
        final(s)@ == old(s)@ + dec(n as nat),
{
    append_padded(s, n, 0);
}

/// Appends the decimal text of `n`, with a minus sign when negative.
pub fn append_i64(s: &mut String, n: i64)
    ensures
        final(s)@ == old(s)@ + signed_dec(n as int),
{
    if n < 0 {
        push_char(s, '-');
        let m: u64 = ((-(n + 1)) as u64) + 1;
        let ghost mid = s@;
        append_u64(s, m);
        proof {
            assert(s@ =~= old(s)@ + (seq!['-'] + dec((-n) as nat)));
        }
    } else {
        append_u64(s, n as u64);
    }
}


/// The value of a string of decimal digits.
pub open spec fn digits_value(s: Seq<char>) -> int
    decreases s.len(),
{
    if s.len() == 0 {
        0
    } else {
        digits_value(s.drop_last()) * 10 + (s.last() as int - 48)
    }
}

/// Every character is a decimal digit.
pub open spec fn all_digits(s: Seq<char>) -> bool {
    forall|i: int| 0 <= i < s.len() ==> '0' <= #[trigger] s[i] && s[i] <= '9'
}

/// What parsing `s` as an `i64` gives: an optional sign, then one or more
/// digits, the value within range; `None` otherwise.
pub open spec fn parse_int(s: Seq<char>) -> Option<int> {
    let neg = s.len() > 0 && s[0] == '-';
    let body = if s.len() > 0 && (s[0] == '-' || s[0] == '+') {
        s.drop_first()
    } else {
        s
    };
    let v = if neg {
        -digits_value(body)
    } else {
        digits_value(body)
    };
    if body.len() == 0 || !all_digits(body) || v < i64::MIN || v > i64::MAX {
        None
    } else {
        Some(v)
    }
}

/// The parsed value, or 0 when `s` is no `i64`.
pub open spec fn parse_or_zero(s: Seq<char>) -> int {
    match parse_int(s) {
        Some(v) => v,
        None => 0,
    }
}

proof fn lemma_digits_value_mono(s: Seq<char>, j: int, k: int)
    requires
        all_digits(s),
        0 <= j <= k <= s.len(),
    ensures
        0 <= digits_value(s.take(j)) <= digits_value(s.take(k)),
    decreases k - j,
{
    if j < k {
        lemma_digits_value_mono(s, j, k - 1);
        assert(s.take(k).drop_last() =~= s.take(k - 1));
        assert('0' <= s[k - 1]);
    } else {
        lemma_digits_nonneg(s.take(j));
    }
}

proof fn lemma_digits_nonneg(s: Seq<char>)
    requires
        all_digits(s),
    ensures
        digits_value(s) >= 0,
    decreases s.len(),
{
    if s.len() > 0 {
        assert(all_digits(s.drop_last()));
        lemma_digits_nonneg(s.drop_last());
        assert('0' <= s[s.len() - 1]);
    }
}

/// Parses `v[a..b]` as an `i64`.
pub fn parse_i64(v: &Vec<char>, a: usize, b: usize) -> (r: Option<i64>)
    requires
        a <= b <= v.len(),
    ensures
        match parse_int(v@.subrange(a as int, b as int)) {
            Some(x) => r == Some(x as i64),
            None => r is None,
        },
{
    let ghost s = v@.subrange(a as int, b as int);
    if a == b {
        return None;
    }
    let neg = v[a] == '-';
    let start = if v[a] == '-' || v[a] == '+' {
        a + 1
    } else {
        a
    };
    let ghost body = v@.subrange(start as int, b as int);
    proof {
        assert(s[0] == v@[a as int]);
        assert(neg == (s.len() > 0 && s[0] == '-'));
        if v@[a as int] == '-' || v@[a as int] == '+' {
            assert(body =~= s.drop_first());
        } else {
            assert(body =~= s);
        }
    }
    if start == b {
        return None;
    }
    // magnitude limit: one past i64::MAX for negatives
    let limit: u64 = if neg {
        9223372036854775808
    } else {
        9223372036854775807
    };
    let mut acc: u64 = 0;
    let mut i = start;
    while i < b
        invariant
            start <= i <= b <= v.len(),
            body == v@.subrange(start as int, b as int),
            all_digits(body.take((i - start) as int)),
            acc == digits_value(body.take((i - start) as int)),
            acc <= limit,
            9223372036854775807 <= limit <= 9223372036854775808,
            neg == (s.len() > 0 && s[0] == '-'),
            limit == if neg {
                9223372036854775808u64
            } else {
                9223372036854775807u64
            },
            s == v@.subrange(a as int, b as int),
            body == if s.len() > 0 && (s[0] == '-' || s[0] == '+') {
                s.drop_first()
            } else {
                s
            },
        decreases b - i,
    {
        let c = v[i];
        proof {
            assert(body.take((i + 1 - start) as int).drop_last() =~= body.take((i - start) as int));
            assert(body[(i - start) as int] == c);
        }
        if !('0' <= c && c <= '9') {
            proof {
                assert(!all_digits(body)) by {
                    assert(body[(i - start) as int] == c);
                }
                assert(parse_int(s) is None);
            }
            return None;
        }
        let d: u64 = (c as u64) - 48;
        if acc > (limit - d) / 10 {
            proof {
                assert(all_digits(body.take((i + 1 - start) as int))) by {
                    assert forall|q: int| 0 <= q < (i + 1 - start) implies '0' <= #[trigger] body.take((i + 1 - start) as int)[q]
                        && body.take((i + 1 - start) as int)[q] <= '9' by {
                        if q < (i - start) {
                            assert(body.take((i - start) as int)[q] == body[q]);
                        }
                    }
                }
                assert(digits_value(body.take((i + 1 - start) as int)) == acc * 10 + d);
                assert(acc * 10 + d > limit) by (nonlinear_arith)
                    requires
                        acc > (limit - d) / 10,
                        d <= 9,
                        limit >= 9,
                ;
                if all_digits(body) {
                    lemma_digits_value_mono(body, (i + 1 - start) as int, body.len() as int);
                    assert(body.take(body.len() as int) =~= body);
                    assert(digits_value(body) > limit);
                }
                assert(parse_int(s) is None);
            }
            return None;
        }
        proof {
            assert(acc * 10 + d <= limit) by (nonlinear_arith)
                requires
                    acc <= (limit - d) / 10,
                    d <= 9,
                    limit >= 9,
            ;
            assert forall|q: int| 0 <= q < (i + 1 - start) implies '0' <= #[trigger] body.take((i + 1 - start) as int)[q]
                && body.take((i + 1 - start) as int)[q] <= '9' by {
                if q < (i - start) {
                    assert(body.take((i - start) as int)[q] == body[q]);
                }
            }
        }
        acc = acc * 10 + d;
        i = i + 1;
    }
    proof {
        assert(body.take((i - start) as int) =~= body);
    }
    if neg {
        if acc == 9223372036854775808 {
            Some(i64::MIN)
        } else {
            Some(-(acc as i64))
        }
    } else {
        Some(acc as i64)
    }
}

} // verus!
