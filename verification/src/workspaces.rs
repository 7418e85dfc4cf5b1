//! Folder registration checks, source-file facts for the viewer, and the
//! parts of import resolution that need no file system.
use vstd::prelude::*;
use vstd::string::{StringExecFns, StringSliceAdditionalSpecFns};

use crate::platform::{components_below, path_is_strict_descendant, paths_equal, same_components, PathComponent};
use crate::text::{ends_with_text, has_suffix, lowercase, push_char, split_lines, to_chars, to_lowercase};

verus! {

/// A registered folder as the index lists it: id, path text, components.
pub type FolderRow = (i64, String, Vec<PathComponent>);

/// The two paths are equal component by component, as given.
pub open spec fn same_path(a: Seq<PathComponent>, b: Seq<PathComponent>, case_insensitive: bool) -> bool {
    same_components(a, b, case_insensitive)
}

/// `b` lies strictly below `a`, component by component as given.
pub open spec fn strictly_below(a: Seq<PathComponent>, b: Seq<PathComponent>, case_insensitive: bool) -> bool {
    components_below(a, b, case_insensitive)
}

/// The id of the first registered folder with the same path, if any.
pub fn find_duplicate(folders: &Vec<FolderRow>, path: &Vec<PathComponent>, case_insensitive: bool) -> (r: Option<i64>)
    ensures
        match r {
            Some(id) => exists|i: int|
                0 <= i < folders.len() && folders@[i].0 == id && same_path(folders@[i].2@, path@, case_insensitive)
                    && forall|j: int| 0 <= j < i ==> !same_path(#[trigger] folders@[j].2@, path@, case_insensitive),
            None => forall|i: int| 0 <= i < folders.len() ==> !same_path(#[trigger] folders@[i].2@, path@, case_insensitive),
        },
{
    let mut i: usize = 0;
    while i < folders.len()
        invariant
            i <= folders.len(),
            forall|j: int| 0 <= j < i ==> !same_path(#[trigger] folders@[j].2@, path@, case_insensitive),
        decreases folders.len() - i,
    {
        if paths_equal(&folders[i].2, path, case_insensitive) {
            return Some(folders[i].0);
        }
        i = i + 1;
    }
    None
}

/// The registered folders that already contain `candidate`, each with the
/// warning "<candidate> is already covered by the indexed folder <folder>",
/// in registration order.
pub fn find_nested_parents(
    folders: &Vec<FolderRow>,
    candidate: &Vec<PathComponent>,
    candidate_display: &str,
    case_insensitive: bool,
) -> (r: Vec<(String, String)>)
    ensures
        r@.len() == nested_parents(folders@, candidate@, case_insensitive).len(),
        forall|k: int|
            0 <= k < r@.len() ==> {
                let i = nested_parents(folders@, candidate@, case_insensitive)[k];
                &&& (#[trigger] r@[k]).0@ == folders@[i].1@
                &&& r@[k].1@ == candidate_display@ + " is already covered by the indexed folder "@ + folders@[i].1@
            },
{
    let mut out: Vec<(String, String)> = Vec::new();
    let mut i: usize = 0;
    while i < folders.len()
        invariant
            i <= folders.len(),
            out@.len() == nested_parents(folders@.take(i as int), candidate@, case_insensitive).len(),
            forall|k: int|
                0 <= k < out@.len() ==> {
                    let q = nested_parents(folders@.take(i as int), candidate@, case_insensitive)[k];
                    &&& 0 <= q < i
                    &&& (#[trigger] out@[k]).0@ == folders@[q].1@
                    &&& out@[k].1@ == candidate_display@ + " is already covered by the indexed folder "@
                        + folders@[q].1@
                },
        decreases folders.len() - i,
    {
        proof {
            assert(folders@.take(i + 1).drop_last() =~= folders@.take(i as int));
            assert(folders@.take(i + 1).last() == folders@[i as int]);
            lemma_nested_parents_bound(folders@.take(i as int), candidate@, case_insensitive);
        }
        if path_is_strict_descendant(&folders[i].2, candidate, case_insensitive) {
            let mut msg = String::from_str(candidate_display);
            msg.append(" is already covered by the indexed folder ");
            msg.append(folders[i].1.as_str());
            let ghost pre = out@;
            out.push((folders[i].1.clone(), msg));
            proof {
                let np = nested_parents(folders@.take(i + 1), candidate@, case_insensitive);
                assert(np == nested_parents(folders@.take(i as int), candidate@, case_insensitive).push(i as int));
                assert forall|k: int| 0 <= k < out@.len() implies {
                    let q = np[k];
                    &&& 0 <= q < i + 1
                    &&& (#[trigger] out@[k]).0@ == folders@[q].1@
                    &&& out@[k].1@ == candidate_display@ + " is already covered by the indexed folder "@
                        + folders@[q].1@
                } by {
                    if k < pre.len() {
                        assert(out@[k] == pre[k]);
                    }
                }
            }
        }
        i = i + 1;
    }
    proof {
        assert(folders@.take(i as int) =~= folders@);
    }
    out
}

/// Positions of the folders that `candidate` lies strictly below.
pub open spec fn nested_parents(folders: Seq<FolderRow>, candidate: Seq<PathComponent>, case_insensitive: bool) -> Seq<int>
    decreases folders.len(),
{
    if folders.len() == 0 {
        Seq::empty()
    } else {
        let pre = nested_parents(folders.drop_last(), candidate, case_insensitive);
        if strictly_below(folders.last().2@, candidate, case_insensitive) {
            pre.push(folders.len() - 1)
        } else {
            pre
        }
    }
}

proof fn lemma_nested_parents_bound(folders: Seq<FolderRow>, candidate: Seq<PathComponent>, case_insensitive: bool)
    ensures
        forall|k: int|
            0 <= k < nested_parents(folders, candidate, case_insensitive).len() ==> 0 <= #[trigger] nested_parents(
                folders,
                candidate,
                case_insensitive,
            )[k] < folders.len(),
    decreases folders.len(),
{
    if folders.len() > 0 {
        let r = folders.drop_last();
        lemma_nested_parents_bound(r, candidate, case_insensitive);
        let pre = nested_parents(r, candidate, case_insensitive);
        let np = nested_parents(folders, candidate, case_insensitive);
        assert forall|k: int| 0 <= k < np.len() implies 0 <= #[trigger] np[k] < folders.len() by {
            if k < pre.len() {
                assert(pre[k] < r.len());
            }
        }
    }
}

/// The viewer shows at most this many bytes of a file.
pub const MAX_FILE_SIZE: u64 = 1000000;

/// The editor language for a path, by its (lowercased) extension.
pub open spec fn language_of(path: Seq<char>) -> Seq<char> {
    language_of_lowered(lowercase(path))
}

/// The editor language for an already lowercased path.
pub open spec fn language_of_lowered(l: Seq<char>) -> Seq<char> {
    if has_suffix(l, ".tsx"@) {
        "typescriptreact"@
    } else if has_suffix(l, ".ts"@) {
        "typescript"@
    } else if has_suffix(l, ".jsx"@) {
        "javascriptreact"@
    } else if has_suffix(l, ".js"@) {
        "javascript"@
    } else {
        "plaintext"@
    }
}

/// The editor language for a path.
pub fn detect_language(path: &str) -> (r: String)
    ensures
        r@ == language_of(path@),
{
    let lower = to_lowercase(path);
    language_of_lowercase(lower.as_str())
}

/// The editor language for an already lowercased path.
pub fn language_of_lowercase(l: &str) -> (r: String)
    ensures
        r@ == language_of_lowered(l@),
{
    if ends_with_text(l, ".tsx") {
        String::from_str("typescriptreact")
    } else if ends_with_text(l, ".ts") {
        String::from_str("typescript")
    } else if ends_with_text(l, ".jsx") {
        String::from_str("javascriptreact")
    } else if ends_with_text(l, ".js") {
        String::from_str("javascript")
    } else {
        String::from_str("plaintext")
    }
}

/// Number of lines of a text (a final newline ends the last line).
pub fn count_lines(content: &str) -> (n: usize)
    ensures
        n == split_lines(content@).len(),
{
    let v = to_chars(content);
    let len = v.len();
    let mut count: usize = 0;
    let mut pos: usize = 0;
    proof {
        assert(v@.skip(0) =~= v@);
    }
    while pos < len
        invariant
            v@ == content@,
            len == v.len(),
            pos <= len,
            count <= pos,
            split_lines(v@).len() == count + split_lines(v@.skip(pos as int)).len(),
        decreases len - pos,
    {
        let e = crate::text::find_char(&v, pos, len, '\n');
        proof {
            crate::text::lemma_split_step(v@, pos as int, e as int);
            if e >= len {
                assert(v@.skip(len as int) =~= Seq::<char>::empty());
            }
        }
        count = count + 1;
        pos = if e < len {
            e + 1
        } else {
            len
        };
    }
    proof {
        assert(v@.skip(len as int) =~= Seq::<char>::empty());
    }
    count
}

/// The source file as the viewer receives it.
pub fn source_file(content: String, relative_path: &str, truncated: bool) -> (f: crate::models::SourceFile)
    requires
        content@.len() < i64::MAX,
    ensures
        f.content@ == content@,
        f.language@ == language_of(relative_path@),
        f.total_lines == split_lines(content@).len(),
        f.truncated == truncated,
{
    let language = detect_language(relative_path);
    let n = count_lines(content.as_str());
    proof {
        lemma_split_lines_len(content@);
    }
    crate::models::SourceFile { content, language, total_lines: n as i64, truncated }
}

proof fn lemma_split_lines_len(s: Seq<char>)
    ensures
        split_lines(s).len() <= s.len(),
    decreases s.len(),
{
    if s.len() > 0 {
        crate::text::lemma_until_len(s, '\n');
        let i = crate::text::until(s, '\n').len() as int;
        if i < s.len() {
            lemma_split_lines_len(s.skip(i + 1));
        }
    }
}

/// The specifier names a package rather than a relative or absolute file
/// path: it starts with neither `.` nor `/`, and is no drive path (`C:`).
pub open spec fn external_package(s: &str) -> bool {
    let b = s.spec_bytes();
    !(s@.len() > 0 && (s@[0] == '.' || s@[0] == '/')) && !(b.len() >= 2 && b[1] == 58)
}

/// Whether the specifier names a package.
pub fn is_external_package(specifier: &str) -> (r: bool)
    ensures
        r == external_package(specifier),
{
    let v = to_chars(specifier);
    if v.len() > 0 && (v[0] == '.' || v[0] == '/') {
        return false;
    }
    let b = specifier.as_bytes();
    if b.len() >= 2 && b[1] == 58 {
        return false;
    }
    true
}

/// The specifier with Windows backslashes turned into slashes.
pub open spec fn forward_slashes(s: Seq<char>) -> Seq<char> {
    Seq::new(s.len(), |i: int| if s[i] == '\\' {
        '/'
    } else {
        s[i]
    })
}

/// Replaces backslashes in an import specifier by slashes.
pub fn normalize_separators(specifier: &str) -> (r: String)
    ensures
        r@ == forward_slashes(specifier@),
{
    let v = to_chars(specifier);
    let mut s = String::new();
    let mut i: usize = 0;
    while i < v.len()
        invariant
            i <= v.len(),
            v@ == specifier@,
            s@ == forward_slashes(v@.take(i as int)),
        decreases v.len() - i,
    {
        let c = if v[i] == '\\' {
            '/'
        } else {
            v[i]
        };
        push_char(&mut s, c);
        proof {
            assert(forward_slashes(v@.take(i + 1)) =~= forward_slashes(v@.take(i as int)).push(c));
        }
        i = i + 1;
    }
    proof {
        assert(v@.take(i as int) =~= v@);
    }
    s
}

} // verus!
