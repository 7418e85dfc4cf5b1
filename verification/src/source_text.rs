//! Positions in UTF-8 source text: byte offsets to 1-based line and column
//! (counted in characters), and back from a line to its first byte.
use vstd::prelude::*;

verus! {

/// The byte begins a character (it is not a UTF-8 continuation byte).
pub open spec fn is_char_start(b: u8) -> bool {
    b < 0x80 || b >= 0xC0
}

/// Line and column reached after the characters starting in the first `k`
/// bytes: a newline starts a new line at column 1, any other character
/// moves one column right.
pub open spec fn line_col_upto(src: Seq<u8>, k: int) -> (int, int)
    decreases k,
{
    if k <= 0 {
        (1, 1)
    } else {
        let (l, c) = line_col_upto(src, k - 1);
        let b = src[k - 1];
        if !is_char_start(b) {
            (l, c)
        } else if b == 10 {
            (l + 1, 1)
        } else {
            (l, c + 1)
        }
    }
}

/// Line and column of the character at byte `offset` (the position just
/// after the text when the offset lies beyond it).
pub open spec fn line_col(src: Seq<u8>, offset: int) -> (int, int) {
    line_col_upto(src, if offset < src.len() {
        offset
    } else {
        src.len() as int
    })
}

/// Number of newline bytes among the first `k` bytes.
pub open spec fn newlines(src: Seq<u8>, k: int) -> int
    decreases k,
{
    if k <= 0 {
        0
    } else {
        newlines(src, k - 1) + if src[k - 1] == 10 {
            1int
        } else {
            0int
        }
    }
}

/// A character on line `line` starts at byte `i`.
pub open spec fn starts_on_line(src: Seq<u8>, line: int, i: int) -> bool {
    0 <= i < src.len() && is_char_start(src[i]) && newlines(src, i) + 1 == line
}

/// The first byte, among the first `k`, where a character on `line` starts.
pub open spec fn first_start(src: Seq<u8>, line: int, k: int) -> Option<int>
    decreases k,
{
    if k <= 0 {
        None
    } else {
        match first_start(src, line, k - 1) {
            Some(j) => Some(j),
            None => if starts_on_line(src, line, k - 1) {
                Some(k - 1)
            } else {
                None
            },
        }
    }
}

proof fn lemma_first_start_stable(src: Seq<u8>, line: int, k: int, m: int)
    requires
        0 <= k <= m,
        first_start(src, line, k) is Some,
    ensures
        first_start(src, line, m) == first_start(src, line, k),
    decreases m - k,
{
    if m > k {
        lemma_first_start_stable(src, line, k, m - 1);
    }
}

proof fn lemma_first_start_none(src: Seq<u8>, line: int, k: int)
    requires
        forall|j: int| 0 <= j < k ==> !#[trigger] starts_on_line(src, line, j),
    ensures
        first_start(src, line, k) is None,
    decreases k,
{
    if k > 0 {
        lemma_first_start_none(src, line, k - 1);
    }
}

/// Beyond the last line nothing starts.
pub proof fn lemma_first_start_past_end(src: Seq<u8>, line: int)
    requires
        line > src.len(),
    ensures
        first_start(src, line, src.len() as int) is None,
{
    assert forall|j: int| 0 <= j < src.len() implies !#[trigger] starts_on_line(src, line, j) by {
        lemma_newlines_bounds(src, j);
    }
    lemma_first_start_none(src, line, src.len() as int);
}

proof fn lemma_line_col_bounds(src: Seq<u8>, k: int)
    requires
        0 <= k <= src.len(),
    ensures
        1 <= line_col_upto(src, k).0 <= k + 1,
        1 <= line_col_upto(src, k).1 <= k + 1,
    decreases k,
{
    if k > 0 {
        lemma_line_col_bounds(src, k - 1);
    }
}

proof fn lemma_newlines_bounds(src: Seq<u8>, k: int)
    requires
        0 <= k <= src.len(),
    ensures
        0 <= newlines(src, k) <= k,
    decreases k,
{
    if k > 0 {
        lemma_newlines_bounds(src, k - 1);
    }
}

/// Converts a byte offset into a 1-based (line, column) pair, the column
/// counted in characters.
pub fn offset_to_line_col(src: &[u8], offset: usize) -> (r: (i64, i64))
    requires
        src.len() < i64::MAX,
    ensures
        r.0 == line_col(src@, offset as int).0,
        r.1 == line_col(src@, offset as int).1,
        r.0 >= 1,
        r.1 >= 1,
{
    let end = if offset < src.len() {
        offset
    } else {
        src.len()
    };
    let mut line: i64 = 1;
    let mut col: i64 = 1;
    let mut i: usize = 0;
    while i < end
        invariant
            end <= src.len(),
            src.len() < i64::MAX,
            i <= end,
            (line as int, col as int) == line_col_upto(src@, i as int),
        decreases end - i,
    {
        proof {
            lemma_line_col_bounds(src@, i as int);
        }
        let b = src[i];
        if b < 0x80 || b >= 0xC0 {
            if b == 10 {
                line = line + 1;
                col = 1;
            } else {
                col = col + 1;
            }
        }
        i = i + 1;
    }
    proof {
        lemma_line_col_bounds(src@, i as int);
    }
    (line, col)
}

/// The byte offset where 1-based line `line` begins: the first character
/// preceded by `line - 1` newlines. `None` when no character starts there.
pub fn line_to_offset(src: &[u8], line: usize) -> (r: Option<usize>)
    ensures
        r matches Some(i) ==> starts_on_line(src@, line as int, i as int) && forall|j: int|
            0 <= j < i ==> !#[trigger] starts_on_line(src@, line as int, j),
        r is None ==> forall|j: int| 0 <= j < src.len() ==> !#[trigger] starts_on_line(src@, line as int, j),
        r matches Some(i) ==> first_start(src@, line as int, src.len() as int) == Some(i as int),
        r is None ==> first_start(src@, line as int, src.len() as int) is None,
{
    if line == 0 {
        proof {
            assert forall|j: int| 0 <= j < src.len() implies !#[trigger] starts_on_line(src@, line as int, j) by {
                lemma_newlines_bounds(src@, j);
            }
            lemma_first_start_none(src@, line as int, src.len() as int);
        }
        return None;
    }
    let mut seen: usize = 0;
    let mut i: usize = 0;
    while i < src.len()
        invariant
            line >= 1,
            i <= src.len(),
            seen as int == newlines(src@, i as int),
            forall|j: int| 0 <= j < i ==> !#[trigger] starts_on_line(src@, line as int, j),
        decreases src.len() - i,
    {
        proof {
            lemma_newlines_bounds(src@, i as int);
        }
        let b = src[i];
        if b < 0x80 || b >= 0xC0 {
            if seen == line - 1 {
                proof {
                    lemma_first_start_none(src@, line as int, i as int);
                    assert(first_start(src@, line as int, i + 1) == Some(i as int));
                    lemma_first_start_stable(src@, line as int, i + 1, src.len() as int);
                }
                return Some(i);
            }
            if b == 10 {
                seen = seen + 1;
            }
        }
        i = i + 1;
    }
    proof {
        lemma_first_start_none(src@, line as int, src.len() as int);
    }
    None
}

/// Some byte in `src[start..end]` equals `b`.
pub open spec fn has_byte(src: Seq<u8>, start: int, end: int, b: u8) -> bool {
    exists|i: int| start <= i < end && #[trigger] src[i] == b
}

/// Whether `src[start..end]` holds byte `b`.
pub fn contains_byte(src: &[u8], start: usize, end: usize, b: u8) -> (r: bool)
    requires
        start <= end <= src.len(),
    ensures
        r == has_byte(src@, start as int, end as int, b),
{
    let mut i = start;
    while i < end
        invariant
            start <= i <= end <= src.len(),
            forall|j: int| start <= j < i ==> src@[j] != b,
        decreases end - i,
    {
        if src[i] == b {
            return true;
        }
        i = i + 1;
    }
    false
}


proof fn lemma_line_is_newlines(src: Seq<u8>, k: int)
    requires
        0 <= k <= src.len(),
    ensures
        line_col_upto(src, k).0 == newlines(src, k) + 1,
    decreases k,
{
    if k > 0 {
        lemma_line_is_newlines(src, k - 1);
    }
}

proof fn lemma_first_start_found(src: Seq<u8>, line: int, j: int, k: int)
    requires
        0 <= j < k,
        starts_on_line(src, line, j),
    ensures
        first_start(src, line, k) matches Some(s) && s <= j && starts_on_line(src, line, s) && forall|i: int|
            0 <= i < s ==> !#[trigger] starts_on_line(src, line, i),
    decreases k,
{
    if k - 1 > j {
        lemma_first_start_found(src, line, j, k - 1);
    } else {
        match first_start(src, line, k - 1) {
            Some(s) => {
                lemma_first_start_minimal(src, line, k - 1);
            },
            None => {
                lemma_first_start_none_means(src, line, k - 1);
            },
        }
    }
}

proof fn lemma_first_start_minimal(src: Seq<u8>, line: int, k: int)
    requires
        first_start(src, line, k) is Some,
    ensures
        first_start(src, line, k) matches Some(s) && 0 <= s < k && starts_on_line(src, line, s) && forall|i: int|
            0 <= i < s ==> !#[trigger] starts_on_line(src, line, i),
    decreases k,
{
    if k > 0 {
        match first_start(src, line, k - 1) {
            Some(s) => {
                lemma_first_start_minimal(src, line, k - 1);
            },
            None => {
                lemma_first_start_none_means(src, line, k - 1);
            },
        }
    }
}

proof fn lemma_first_start_none_means(src: Seq<u8>, line: int, k: int)
    requires
        first_start(src, line, k) is None,
    ensures
        forall|i: int| 0 <= i < k ==> !#[trigger] starts_on_line(src, line, i),
    decreases k,
{
    if k > 0 {
        lemma_first_start_none_means(src, line, k - 1);
    }
}

proof fn lemma_column_one(src: Seq<u8>, line: int, s: int, k: int)
    requires
        0 <= k <= s < src.len(),
        newlines(src, k) + 1 == line,
        forall|i: int| 0 <= i < s ==> !#[trigger] starts_on_line(src, line, i),
    ensures
        line_col_upto(src, k).1 == 1,
    decreases k,
{
    if k > 0 {
        let b = src[k - 1];
        if b != 10 {
            assert(newlines(src, k - 1) == newlines(src, k));
            if is_char_start(b) {
                assert(starts_on_line(src, line, k - 1));
            } else {
                lemma_column_one(src, line, s, k - 1);
            }
        }
    }
}

/// The line on which a character lies, as `offset_to_line_col` reports it,
/// begins (as `line_to_offset` finds it) at or before that character, and
/// that beginning is reported at column 1 of the same line.
pub proof fn lemma_line_start_round_trip(src: Seq<u8>, offset: int)
    requires
        0 <= offset < src.len(),
        is_char_start(src[offset]),
    ensures
        first_start(src, line_col(src, offset).0, src.len() as int) matches Some(s) && s <= offset && line_col(
            src,
            s,
        ) == (line_col(src, offset).0, 1int),
{
    let line = line_col(src, offset).0;
    lemma_line_is_newlines(src, offset);
    assert(starts_on_line(src, line, offset));
    lemma_first_start_found(src, line, offset, src.len() as int);
    let s = first_start(src, line, src.len() as int)->0;
    lemma_line_is_newlines(src, s);
    lemma_column_one(src, line, s, s);
}

} // verus!
