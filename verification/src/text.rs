//! Character-level helpers over text: whitespace trimming, splitting at a
//! character, and conversions between strings and character vectors.
use vstd::prelude::*;
use vstd::string::StringExecFns;

verus! {

/// The characters Rust's `char::is_whitespace` accepts (Unicode
/// `White_Space`).
pub open spec fn is_ws(c: char) -> bool {
    ||| c == '\t'
    ||| c == '\n'
    ||| c == '\u{0B}'
    ||| c == '\u{0C}'
    ||| c == '\r'
    ||| c == ' '
    ||| c == '\u{85}'
    ||| c == '\u{A0}'
    ||| c == '\u{1680}'
    ||| ('\u{2000}' <= c && c <= '\u{200A}')
    ||| c == '\u{2028}'
    ||| c == '\u{2029}'
    ||| c == '\u{202F}'
    ||| c == '\u{205F}'
    ||| c == '\u{3000}'
}

/// Whether `c` is whitespace.
pub fn is_whitespace(c: char) -> (r: bool)
    ensures
        r == is_ws(c),
{
    c == '\t' || c == '\n' || c == '\u{0B}' || c == '\u{0C}' || c == '\r' || c == ' ' || c == '\u{85}'
        || c == '\u{A0}' || c == '\u{1680}' || ('\u{2000}' <= c && c <= '\u{200A}') || c == '\u{2028}'
        || c == '\u{2029}' || c == '\u{202F}' || c == '\u{205F}' || c == '\u{3000}'
}

/// The first index at or after `i` that holds no whitespace (or the end).
pub open spec fn skip_ws(s: Seq<char>, i: int) -> int
    decreases s.len() - i,
{
    if i < 0 || i >= s.len() || !is_ws(s[i]) {
        i
    } else {
        skip_ws(s, i + 1)
    }
}

/// The end of `s[..j]` once trailing whitespace is dropped.
pub open spec fn skip_ws_back(s: Seq<char>, j: int) -> int
    decreases j,
{
    if j <= 0 || j > s.len() || !is_ws(s[j - 1]) {
        j
    } else {
        skip_ws_back(s, j - 1)
    }
}

/// `s` without leading and trailing whitespace.
pub open spec fn trim(s: Seq<char>) -> Seq<char> {
    let a = skip_ws(s, 0);
    let b = skip_ws_back(s, s.len() as int);
    if a < b {
        s.subrange(a, b)
    } else {
        Seq::empty()
    }
}

/// The part of `s` before the first `c` (all of `s` without one).
pub open spec fn until(s: Seq<char>, c: char) -> Seq<char>
    decreases s.len(),
{
    if s.len() == 0 {
        Seq::empty()
    } else if s[0] == c {
        Seq::empty()
    } else {
        seq![s[0]] + until(s.drop_first(), c)
    }
}

/// The characters of `s`.
pub fn to_chars(s: &str) -> (v: Vec<char>)
    ensures
        v@ == s@,
{
    broadcast use vstd::string::group_string_axioms;

    let mut v: Vec<char> = Vec::new();
    for c in it: s.chars()
        invariant
            v@ == it.seq().take(it.index() as int),
            it.seq() == s@,
    {
        v.push(c);
    }
    v
}

/// Appends one character to a string (`String::push`).
#[verifier::external_body]
pub(crate) fn push_char(s: &mut String, c: char)
    ensures
        final(s)@ == old(s)@.push(c),
{
    s.push(c);
}

/// The string made of `v[a..b]`.
pub fn string_of(v: &Vec<char>, a: usize, b: usize) -> (s: String)
    requires
        a <= b <= v.len(),
    ensures
        s@ == v@.subrange(a as int, b as int),
{
    let mut s = String::new();
    let mut i = a;
    while i < b
        invariant
            a <= i <= b <= v.len(),
            s@ == v@.subrange(a as int, i as int),
        decreases b - i,
    {
        push_char(&mut s, v[i]);
        proof {
            assert(v@.subrange(a as int, i + 1) =~= v@.subrange(a as int, i as int).push(v@[i as int]));
        }
        i = i + 1;
    }
    s
}

proof fn lemma_skip_ws_bounds(s: Seq<char>, i: int)
    requires
        0 <= i <= s.len(),
    ensures
        i <= skip_ws(s, i) <= s.len(),
        skip_ws(s, i) < s.len() ==> !is_ws(s[skip_ws(s, i)]),
    decreases s.len() - i,
{
    if i < s.len() && is_ws(s[i]) {
        lemma_skip_ws_bounds(s, i + 1);
    }
}

proof fn lemma_skip_ws_back_bounds(s: Seq<char>, j: int)
    requires
        0 <= j <= s.len(),
    ensures
        0 <= skip_ws_back(s, j) <= j,
        skip_ws_back(s, j) > 0 ==> !is_ws(s[skip_ws_back(s, j) - 1]),
    decreases j,
{
    if j > 0 && is_ws(s[j - 1]) {
        lemma_skip_ws_back_bounds(s, j - 1);
    }
}

/// The bounds of `v[a..b]` without leading and trailing whitespace.
pub fn trim_range(v: &Vec<char>, a: usize, b: usize) -> (r: (usize, usize))
    requires
        a <= b <= v.len(),
    ensures
        a <= r.0 <= r.1 <= b,
        v@.subrange(r.0 as int, r.1 as int) == trim(v@.subrange(a as int, b as int)),
{
    let ghost s = v@.subrange(a as int, b as int);
    let mut i = a;
    while i < b && is_whitespace(v[i])
        invariant
            a <= i <= b <= v.len(),
            s == v@.subrange(a as int, b as int),
            skip_ws(s, (i - a) as int) == skip_ws(s, 0),
        decreases b - i,
    {
        proof {
            assert(s[(i - a) as int] == v@[i as int]);
        }
        i = i + 1;
    }
    proof {
        if i < b {
            assert(s[(i - a) as int] == v@[i as int]);
        }
        assert(skip_ws(s, (i - a) as int) == (i - a));
    }
    let mut j = b;
    while j > i && is_whitespace(v[j - 1])
        invariant
            a <= i <= j <= b <= v.len(),
            s == v@.subrange(a as int, b as int),
            skip_ws(s, 0) == (i - a),
            skip_ws_back(s, (j - a) as int) == skip_ws_back(s, s.len() as int),
            forall|k: int| (j - a) <= k < s.len() ==> is_ws(#[trigger] s[k]),
        decreases j,
    {
        proof {
            assert(s[(j - 1 - a) as int] == v@[j - 1]);
        }
        j = j - 1;
    }
    proof {
        lemma_skip_ws_back_bounds(s, s.len() as int);
        lemma_skip_ws_bounds(s, 0);
        if j > i {
            assert(s[(j - 1 - a) as int] == v@[j - 1]);
            assert(skip_ws_back(s, (j - a) as int) == (j - a));
            assert(v@.subrange(i as int, j as int) =~= s.subrange((i - a) as int, (j - a) as int));
        } else {
            // everything from i on is whitespace, so nothing is left
            let e = skip_ws_back(s, s.len() as int);
            if e > (i - a) {
                assert(is_ws(s[e - 1]));
            }
            assert(v@.subrange(i as int, j as int) =~= Seq::<char>::empty());
        }
    }
    (i, j)
}

/// The first index in `[a, b)` holding `c`, or `b`.
pub fn find_char(v: &Vec<char>, a: usize, b: usize, c: char) -> (r: usize)
    requires
        a <= b <= v.len(),
    ensures
        a <= r <= b,
        v@.subrange(a as int, r as int) == until(v@.subrange(a as int, b as int), c),
{
    let mut k = a;
    while k < b && v[k] != c
        invariant
            a <= k <= b <= v.len(),
            forall|t: int| a <= t < k ==> v@[t] != c,
        decreases b - k,
    {
        k = k + 1;
    }
    proof {
        lemma_until_prefix(v@, a as int, k as int, b as int, c);
    }
    k
}

proof fn lemma_until_prefix(v: Seq<char>, a: int, k: int, b: int, c: char)
    requires
        0 <= a <= k <= b <= v.len(),
        forall|t: int| a <= t < k ==> v[t] != c,
        k < b ==> v[k] == c,
    ensures
        v.subrange(a, k) == until(v.subrange(a, b), c),
    decreases k - a,
{
    let s = v.subrange(a, b);
    if a == k {
        if a < b {
            assert(s[0] == c);
        }
        assert(v.subrange(a, k) =~= Seq::<char>::empty());
    } else {
        lemma_until_prefix(v, a + 1, k, b, c);
        assert(s.drop_first() =~= v.subrange(a + 1, b));
        assert(s[0] == v[a]);
        assert(v.subrange(a, k) =~= seq![v[a]] + v.subrange(a + 1, k));
    }
}


/// `a` sorts strictly before `b`, character by character (the order of
/// Rust strings).
pub open spec fn text_lt(a: Seq<char>, b: Seq<char>) -> bool
    decreases a.len(),
{
    if a.len() == 0 {
        b.len() > 0
    } else if b.len() == 0 {
        false
    } else if a[0] != b[0] {
        a[0] < b[0]
    } else {
        text_lt(a.drop_first(), b.drop_first())
    }
}

/// Two different texts are ordered one way or the other, never both.
pub proof fn lemma_text_lt_total(a: Seq<char>, b: Seq<char>)
    ensures
        a != b ==> (text_lt(a, b) || text_lt(b, a)),
        !(text_lt(a, b) && text_lt(b, a)),
        !text_lt(a, a),
    decreases a.len(),
{
    if a.len() > 0 && b.len() > 0 && a[0] == b[0] {
        lemma_text_lt_total(a.drop_first(), b.drop_first());
        if a != b {
            assert(a =~= seq![a[0]] + a.drop_first());
            assert(b =~= seq![b[0]] + b.drop_first());
        }
    }
    if a.len() > 0 {
        lemma_text_lt_total(a.drop_first(), a.drop_first());
    }
    if a.len() == 0 && b.len() == 0 {
        assert(a =~= b);
    }
}

/// The order is transitive.
pub proof fn lemma_text_lt_trans(a: Seq<char>, b: Seq<char>, c: Seq<char>)
    requires
        text_lt(a, b),
        text_lt(b, c),
    ensures
        text_lt(a, c),
    decreases a.len(),
{
    if a.len() > 0 && b.len() > 0 && c.len() > 0 && a[0] == b[0] && b[0] == c[0] {
        lemma_text_lt_trans(a.drop_first(), b.drop_first(), c.drop_first());
    }
}

/// Whether `a` sorts strictly before `b`.
pub fn text_less(a: &str, b: &str) -> (r: bool)
    ensures
        r == text_lt(a@, b@),
{
    let x = to_chars(a);
    let y = to_chars(b);
    let mut i: usize = 0;
    proof {
        assert(x@.skip(0) =~= x@);
        assert(y@.skip(0) =~= y@);
    }
    while i < x.len() && i < y.len() && x[i] == y[i]
        invariant
            i <= x.len(),
            i <= y.len(),
            x@ == a@,
            y@ == b@,
            text_lt(a@, b@) == text_lt(x@.skip(i as int), y@.skip(i as int)),
        decreases x.len() - i,
    {
        proof {
            let xs = x@.skip(i as int);
            let ys = y@.skip(i as int);
            assert(xs.drop_first() =~= x@.skip(i + 1));
            assert(ys.drop_first() =~= y@.skip(i + 1));
        }
        i = i + 1;
    }
    let ghost xs = x@.skip(i as int);
    if i == x.len() {
        proof {
            assert(xs.len() == 0);
        }
        i < y.len()
    } else if i == y.len() {
        false
    } else {
        proof {
            assert(x@.skip(i as int)[0] == x@[i as int]);
            assert(y@.skip(i as int)[0] == y@[i as int]);
        }
        x[i] < y[i]
    }
}

/// Whether two strings hold the same text.
pub fn text_eq(a: &str, b: &str) -> (r: bool)
    ensures
        r == (a@ == b@),
{
    String::from_str(a) == String::from_str(b)
}


/// What `str::to_lowercase` returns for the text `s` (Unicode lowercase
/// mapping).
pub uninterp spec fn lowercase(s: Seq<char>) -> Seq<char>;

/// Lowercases a string with `str::to_lowercase`; the result is the named
/// mapping of the text, nothing more is claimed of it.
#[verifier::external_body]
pub(crate) fn to_lowercase(s: &str) -> (r: String)
    ensures
        r@ == lowercase(s@),
{
    s.to_lowercase()
}


/// The strings are in strictly ascending order.
pub open spec fn strictly_sorted(s: Seq<String>) -> bool {
    forall|i: int, j: int| 0 <= i < j < s.len() ==> text_lt(s[i]@, s[j]@)
}

/// Some string of `s` holds the text `x`.
pub open spec fn holds_text(s: Seq<String>, x: Seq<char>) -> bool {
    exists|i: int| 0 <= i < s.len() && (#[trigger] s[i])@ == x
}

/// Inserts `x` at its place in an ascending list that does not hold it.
pub fn insert_sorted(out: &mut Vec<String>, x: String)
    requires
        strictly_sorted(old(out)@),
        !holds_text(old(out)@, x@),
    ensures
        strictly_sorted(final(out)@),
        forall|y: Seq<char>| #[trigger] holds_text(final(out)@, y) <==> (holds_text(old(out)@, y) || y == x@),
        final(out)@.len() == old(out)@.len() + 1,
{
    let mut p: usize = 0;
    while p < out.len() && text_less(out[p].as_str(), x.as_str())
        invariant
            p <= out.len(),
            forall|q: int| 0 <= q < p ==> text_lt(out@[q]@, x@),
        decreases out.len() - p,
    {
        p = p + 1;
    }
    let ghost pre = out@;
    proof {
        if p < pre.len() {
            lemma_text_lt_total(pre[p as int]@, x@);
            assert(pre[p as int]@ != x@);
        }
    }
    let ghost xv = x@;
    out.insert(p, x);
    proof {
        assert(out@[p as int]@ == xv);
        assert forall|a: int, b: int| 0 <= a < b < out@.len() implies text_lt(out@[a]@, out@[b]@) by {
            if b < p {
                assert(out@[a] == pre[a] && out@[b] == pre[b]);
            } else if b == p {
                assert(out@[a] == pre[a]);
            } else if a < p {
                assert(out@[a] == pre[a] && out@[b] == pre[b - 1]);
                lemma_text_lt_total(pre[p as int]@, xv);
                if b - 1 > p {
                    lemma_text_lt_trans(xv, pre[p as int]@, pre[b - 1]@);
                }
                lemma_text_lt_trans(pre[a]@, xv, pre[b - 1]@);
            } else if a == p {
                assert(out@[b] == pre[b - 1]);
                lemma_text_lt_total(pre[p as int]@, xv);
                if b - 1 > p {
                    lemma_text_lt_trans(xv, pre[p as int]@, pre[b - 1]@);
                }
            } else {
                assert(out@[a] == pre[a - 1] && out@[b] == pre[b - 1]);
            }
        }
        assert forall|y: Seq<char>| #[trigger] holds_text(out@, y) <==> (holds_text(pre, y) || y == xv) by {
            if holds_text(out@, y) {
                let q = choose|q: int| 0 <= q < out@.len() && (#[trigger] out@[q])@ == y;
                if q < p {
                    assert(out@[q] == pre[q]);
                } else if q > p {
                    assert(out@[q] == pre[q - 1]);
                }
            }
            if holds_text(pre, y) {
                let q = choose|q: int| 0 <= q < pre.len() && (#[trigger] pre[q])@ == y;
                if q < p {
                    assert(out@[q] == pre[q]);
                } else {
                    assert(out@[q + 1] == pre[q]);
                }
            }
        }
    }
}


/// The lines of a text: split at newlines, a final newline ending the last
/// line rather than starting an empty one.
pub open spec fn split_lines(s: Seq<char>) -> Seq<Seq<char>>
    decreases s.len(),
{
    if s.len() == 0 {
        Seq::empty()
    } else {
        let i = until(s, '\n').len() as int;
        if i >= s.len() {
            seq![s]
        } else {
            seq![s.take(i)] + split_lines(s.skip(i + 1))
        }
    }
}

pub proof fn lemma_until_len(s: Seq<char>, c: char)
    ensures
        until(s, c).len() <= s.len(),
        until(s, c).len() < s.len() ==> s[until(s, c).len() as int] == c,
        forall|i: int| 0 <= i < until(s, c).len() ==> #[trigger] until(s, c)[i] == s[i],
    decreases s.len(),
{
    if s.len() > 0 && s[0] != c {
        lemma_until_len(s.drop_first(), c);
    }
}

pub proof fn lemma_split_step(v: Seq<char>, pos: int, e: int)
    requires
        0 <= pos < e <= v.len() || (0 <= pos == e < v.len()) || (0 <= pos <= e <= v.len() && pos < v.len()),
        v.subrange(pos, e) == until(v.subrange(pos, v.len() as int), '\n'),
    ensures
        e < v.len() ==> split_lines(v.skip(pos)) == seq![v.subrange(pos, e)] + split_lines(v.skip(e + 1)),
        e >= v.len() ==> split_lines(v.skip(pos)) == seq![v.subrange(pos, e)],
{
    let s = v.skip(pos);
    assert(s =~= v.subrange(pos, v.len() as int));
    lemma_until_len(s, '\n');
    let i = until(s, '\n').len() as int;
    assert(i == e - pos);
    if e < v.len() {
        assert(s.take(i) =~= v.subrange(pos, e));
        assert(s.skip(i + 1) =~= v.skip(e + 1));
    } else {
        assert(s =~= v.subrange(pos, e));
    }
}


/// `s` begins with `t`.
pub open spec fn has_prefix(s: Seq<char>, t: Seq<char>) -> bool {
    s.len() >= t.len() && s.take(t.len() as int) == t
}

/// `s` ends with `t`.
pub open spec fn has_suffix(s: Seq<char>, t: Seq<char>) -> bool {
    s.len() >= t.len() && s.skip(s.len() - t.len()) == t
}

/// `t` occurs in `s`.
pub open spec fn has_infix(s: Seq<char>, t: Seq<char>) -> bool {
    exists|i: int| 0 <= i <= s.len() - t.len() && #[trigger] s.subrange(i, i + t.len()) == t
}

/// `v[a..a + t.len()]` equals `t`.
fn matches_at(v: &Vec<char>, a: usize, t: &Vec<char>) -> (r: bool)
    requires
        a + t.len() <= v.len(),
    ensures
        r == (v@.subrange(a as int, a + t.len()) == t@),
{
    let mut i: usize = 0;
    while i < t.len()
        invariant
            a + t.len() <= v.len(),
            i <= t.len(),
            forall|q: int| 0 <= q < i ==> v@[a + q] == t@[q],
        decreases t.len() - i,
    {
        if v[a + i] != t[i] {
            proof {
                assert(v@.subrange(a as int, a + t.len())[i as int] != t@[i as int]);
            }
            return false;
        }
        i = i + 1;
    }
    proof {
        assert(v@.subrange(a as int, a + t.len()) =~= t@);
    }
    true
}

/// Whether `s` begins with `t`.
pub fn starts_with_text(s: &str, t: &str) -> (r: bool)
    ensures
        r == has_prefix(s@, t@),
{
    let v = to_chars(s);
    let w = to_chars(t);
    if v.len() < w.len() {
        return false;
    }
    let r = matches_at(&v, 0, &w);
    proof {
        assert(v@.subrange(0, w.len() as int) =~= v@.take(w.len() as int));
    }
    r
}

/// Whether `s` ends with `t`.
pub fn ends_with_text(s: &str, t: &str) -> (r: bool)
    ensures
        r == has_suffix(s@, t@),
{
    let v = to_chars(s);
    let w = to_chars(t);
    if v.len() < w.len() {
        return false;
    }
    let a = v.len() - w.len();
    let r = matches_at(&v, a, &w);
    proof {
        assert(v@.subrange(a as int, a + w.len()) =~= v@.skip(a as int));
    }
    r
}

/// Whether `t` occurs in `s`.
pub fn contains_text(s: &str, t: &str) -> (r: bool)
    ensures
        r == has_infix(s@, t@),
{
    let v = to_chars(s);
    let w = to_chars(t);
    if v.len() < w.len() {
        proof {
            assert forall|i: int| 0 <= i <= v@.len() - w@.len() implies #[trigger] v@.subrange(i, i + w@.len()) != w@ by {}
        }
        return false;
    }
    let lim = v.len() - w.len();
    let mut i: usize = 0;
    while i < lim
        invariant
            v@ == s@,
            w@ == t@,
            w.len() <= v.len(),
            lim == v.len() - w.len(),
            i <= lim,
            forall|q: int| 0 <= q < i ==> #[trigger] v@.subrange(q, q + w@.len()) != w@,
        decreases lim - i,
    {
        if matches_at(&v, i, &w) {
            return true;
        }
        i = i + 1;
    }
    if matches_at(&v, lim, &w) {
        return true;
    }
    false
}

} // verus!
