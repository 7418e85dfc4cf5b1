//! A minimal CSS analyzer: every line that starts with `@import` and names
//! a quoted target (directly or inside `url(..)`) becomes a static import.
use std::path::Path;
use vstd::prelude::*;

use crate::text::{find_char, lemma_split_step, split_lines, string_of, to_chars, trim, trim_range, until};
use crate::ts_js::{ImportRecord, ImportType, ParseResult};

verus! {

/// The CSS analyzer: extracts `@import` statements as import records.
pub struct CssAnalyzer;

/// The keyword that opens an import line.
pub open spec fn import_keyword() -> Seq<char> {
    seq!['@', 'i', 'm', 'p', 'o', 'r', 't']
}

/// The code of `c` with ASCII capitals lowered.
pub open spec fn ascii_lower(c: char) -> int {
    if 'A' <= c && c <= 'Z' {
        c as int + 32
    } else {
        c as int
    }
}

/// The line starts with `@import`, in any ASCII case.
pub open spec fn starts_with_import(s: Seq<char>) -> bool {
    s.len() >= 7 && forall|i: int| 0 <= i < 7 ==> ascii_lower(#[trigger] s[i]) == import_keyword()[i] as int
}

/// The target named by a quoted string: the text after the opening quote
/// up to the closing one, without any `?query`.
pub open spec fn quoted(s: Seq<char>) -> Option<Seq<char>> {
    let t = trim(s);
    if t.len() > 0 && (t[0] == '"' || t[0] == '\'') {
        Some(until(until(t.drop_first(), t[0]), '?'))
    } else {
        None
    }
}

/// The import target of a (trimmed) line, if it is an import line.
pub open spec fn css_import(line: Seq<char>) -> Option<Seq<char>> {
    if !starts_with_import(line) {
        None
    } else {
        let rest = trim(line.skip(7));
        if rest.len() >= 4 && rest.take(4) == seq!['u', 'r', 'l', '('] {
            let s = rest.skip(4);
            let inner = if s.len() > 0 && s.last() == ')' {
                s.drop_last()
            } else {
                s
            };
            quoted(trim(inner))
        } else {
            quoted(rest)
        }
    }
}

/// The imports found in `lines`: target and 1-based line number.
pub open spec fn css_found(lines: Seq<Seq<char>>) -> Seq<(Seq<char>, int)>
    decreases lines.len(),
{
    if lines.len() == 0 {
        Seq::empty()
    } else {
        let pre = css_found(lines.drop_last());
        match css_import(trim(lines.last())) {
            Some(t) => pre.push((t, lines.len() as int)),
            None => pre,
        }
    }
}

/// The record is the static import of `t` found on line `line`.
pub open spec fn css_record(r: ImportRecord, file_id: i64, t: Seq<char>, line: int) -> bool {
    &&& r.source_file_id == file_id
    &&& r.target_specifier@ == t
    &&& r.resolved_target is None
    &&& r.import_type == ImportType::StaticImport
    &&& !r.is_external
    &&& (r.start_line matches Some(l) && l == line)
    &&& r.start_column == Some(1i64)
}

fn lower_code(c: char) -> (r: u32)
    ensures
        r == ascii_lower(c),
{
    if 'A' <= c && c <= 'Z' {
        (c as u32) + 32
    } else {
        c as u32
    }
}

/// The bounds of the target named by the quoted string in `v[x..y]`.
fn quoted_range(v: &Vec<char>, x: usize, y: usize) -> (r: Option<(usize, usize)>)
    requires
        x <= y <= v.len(),
    ensures
        match quoted(v@.subrange(x as int, y as int)) {
            Some(t) => r matches Some(p) && p.0 <= p.1 <= v.len() && v@.subrange(p.0 as int, p.1 as int) == t,
            None => r is None,
        },
{
    let (tx, ty) = trim_range(v, x, y);
    let ghost t = v@.subrange(tx as int, ty as int);
    if tx < ty && (v[tx] == '"' || v[tx] == '\'') {
        let q = v[tx];
        proof {
            assert(t[0] == q);
            assert(t.drop_first() =~= v@.subrange(tx + 1, ty as int));
        }
        let e1 = find_char(v, tx + 1, ty, q);
        let e2 = find_char(v, tx + 1, e1, '?');
        Some((tx + 1, e2))
    } else {
        proof {
            if tx < ty {
                assert(t[0] == v@[tx as int]);
            }
        }
        None
    }
}

/// The bounds of the import target of the trimmed line `v[a..b]`.
fn import_range(v: &Vec<char>, a: usize, b: usize) -> (r: Option<(usize, usize)>)
    requires
        a <= b <= v.len(),
    ensures
        match css_import(v@.subrange(a as int, b as int)) {
            Some(t) => r matches Some(p) && p.0 <= p.1 <= v.len() && v@.subrange(p.0 as int, p.1 as int) == t,
            None => r is None,
        },
{
    let ghost line = v@.subrange(a as int, b as int);
    if b - a < 7 {
        return None;
    }
    let kw: [char; 7] = ['@', 'i', 'm', 'p', 'o', 'r', 't'];
    let mut i: usize = 0;
    while i < 7
        invariant
            b - a >= 7,
            a <= b <= v.len(),
            line == v@.subrange(a as int, b as int),
            kw@ == import_keyword(),
            i <= 7,
            forall|k: int| 0 <= k < i ==> ascii_lower(#[trigger] line[k]) == import_keyword()[k] as int,
        decreases 7 - i,
    {
        if lower_code(v[a + i]) != (kw[i] as u32) {
            proof {
                assert(line[i as int] == v@[a + i]);
                assert(!starts_with_import(line));
            }
            return None;
        }
        proof {
            assert(line[i as int] == v@[a + i]);
        }
        i = i + 1;
    }
    proof {
        assert(line.skip(7) =~= v@.subrange(a + 7, b as int));
    }
    let (ra, rb) = trim_range(v, a + 7, b);
    let ghost rest = v@.subrange(ra as int, rb as int);
    if rb - ra >= 4 && v[ra] == 'u' && v[ra + 1] == 'r' && v[ra + 2] == 'l' && v[ra + 3] == '(' {
        proof {
            assert(rest.take(4) =~= seq!['u', 'r', 'l', '(']);
            assert(rest.skip(4) =~= v@.subrange(ra + 4, rb as int));
        }
        let ie = if rb > ra + 4 && v[rb - 1] == ')' {
            rb - 1
        } else {
            rb
        };
        proof {
            let s = rest.skip(4);
            if rb > ra + 4 && v@[rb - 1] == ')' {
                assert(s.drop_last() =~= v@.subrange(ra + 4, ie as int));
            } else {
                if s.len() > 0 {
                    assert(s.last() == v@[rb - 1]);
                }
            }
        }
        let (tx, ty) = trim_range(v, ra + 4, ie);
        quoted_range(v, tx, ty)
    } else {
        proof {
            if rb - ra >= 4 {
                if rest.take(4) == seq!['u', 'r', 'l', '('] {
                    assert(rest.take(4)[0] == v@[ra as int]);
                    assert(rest.take(4)[1] == v@[ra + 1]);
                    assert(rest.take(4)[2] == v@[ra + 2]);
                    assert(rest.take(4)[3] == v@[ra + 3]);
                }
            }
        }
        quoted_range(v, ra, rb)
    }
}

impl CssAnalyzer {
    /// Human-readable plugin name.
    pub fn name(&self) -> (s: &'static str)
        ensures
            s@ == "CSS"@,
    {
        "CSS"
    }

    /// Version of the analyzer.
    pub fn version(&self) -> (s: &'static str)
        ensures
            s@ == "0.1.0"@,
    {
        "0.1.0"
    }

    /// What the analyzer extracts.
    pub fn description(&self) -> (s: &'static str)
        ensures
            s@ == "Extracts @import and @url references from CSS files."@,
    {
        "Extracts @import and @url references from CSS files."
    }

    /// Parses a CSS source: one static import per `@import` line, with its
    /// 1-based line number and column 1. Parsing never fails and reports no
    /// diagnostics.
    pub fn parse(
        &self,
        file_id: i64,
        _absolute_path: &Path,
        _workspace_root: &Path,
        source_text: &str,
    ) -> (r: (ParseResult, bool))
        requires
            source_text@.len() < i64::MAX,
        ensures
            r.1,
            r.0.diagnostics.len() == 0,
            r.0.imports.len() == css_found(split_lines(source_text@)).len(),
            forall|i: int|
                0 <= i < r.0.imports.len() ==> css_record(
                    #[trigger] r.0.imports[i],
                    file_id,
                    css_found(split_lines(source_text@))[i].0,
                    css_found(split_lines(source_text@))[i].1,
                ),
    {
        let v = to_chars(source_text);
        let n = v.len();
        let mut imports: Vec<ImportRecord> = Vec::new();
        let ghost mut done: Seq<Seq<char>> = Seq::empty();
        let mut line_no: usize = 0;
        let mut pos: usize = 0;
        proof {
            assert(v@.skip(0) =~= v@);
            assert(done + split_lines(v@) =~= split_lines(v@));
        }
        while pos < n
            invariant
                n < i64::MAX,
                v@ == source_text@,
                n == v.len(),
                pos <= n,
                line_no == done.len(),
                line_no <= pos,
                split_lines(v@) == done + split_lines(v@.skip(pos as int)),
                imports.len() == css_found(done).len(),
                forall|i: int|
                    0 <= i < imports.len() ==> css_record(
                        #[trigger] imports[i],
                        file_id,
                        css_found(done)[i].0,
                        css_found(done)[i].1,
                    ),
            decreases n - pos,
        {
            let e = find_char(&v, pos, n, '\n');
            proof {
                lemma_split_step(v@, pos as int, e as int);
            }
            let (a, b) = trim_range(&v, pos, e);
            let ghost line = v@.subrange(pos as int, e as int);
            let ghost done2 = done.push(line);
            proof {
                assert(done2.drop_last() =~= done);
                assert(done2.last() == line);
            }
            match import_range(&v, a, b) {
                Some((x, y)) => {
                    let t = string_of(&v, x, y);
                    let rec = ImportRecord {
                        source_file_id: file_id,
                        target_specifier: t,
                        resolved_target: None,
                        import_type: ImportType::StaticImport,
                        is_external: false,
                        start_line: Some(line_no as i64 + 1),
                        start_column: Some(1),
                    };
                    let ghost pre = imports@;
                    imports.push(rec);
                    proof {
                        assert(css_found(done2) == css_found(done).push((v@.subrange(x as int, y as int), done2.len() as int)));
                        assert forall|i: int|
                            0 <= i < imports.len() implies css_record(
                            #[trigger] imports[i],
                            file_id,
                            css_found(done2)[i].0,
                            css_found(done2)[i].1,
                        ) by {
                            if i < pre.len() {
                                assert(imports[i] == pre[i]);
                            }
                        }
                    }
                },
                None => {
                    proof {
                        assert(css_found(done2) == css_found(done));
                    }
                },
            }
            proof {
                done = done2;
                if e < n {
                    assert(split_lines(v@) =~= done + split_lines(v@.skip(e + 1)));
                } else {
                    assert(v@.skip(n as int) =~= Seq::<char>::empty());
                    assert(split_lines(v@) =~= done + split_lines(v@.skip(n as int)));
                }
            }
            line_no = line_no + 1;
            pos = if e < n {
                e + 1
            } else {
                n
            };
        }
        proof {
            assert(v@.skip(n as int) =~= Seq::<char>::empty());
            assert(done + split_lines(v@.skip(n as int)) =~= done);
        }
        (ParseResult { imports, diagnostics: Vec::new() }, true)
    }
}

} // verus!
