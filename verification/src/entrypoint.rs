//! Entry-point heuristics: which evidence marks a file as a likely place
//! to start reading. Weighing the evidence into a confidence is left to the
//! caller.
use std::collections::HashMap;
use vstd::prelude::*;
use vstd::string::StringExecFns;

use crate::decimal::{append_i64, signed_dec};
use crate::reading_path::in_degree;
use crate::text::{contains_text, ends_with_text, has_infix, has_prefix, has_suffix, lowercase, starts_with_text, text_eq, to_lowercase};

verus! {

/// The file names that usually start a program, in the order they are
/// tried.
pub open spec fn known_entry_names() -> Seq<Seq<char>> {
    seq![
        "main.ts"@,
        "main.tsx"@,
        "main.js"@,
        "main.jsx"@,
        "index.ts"@,
        "index.tsx"@,
        "index.js"@,
        "index.jsx"@,
        "app.ts"@,
        "app.tsx"@,
        "app.js"@,
        "app.jsx"@,
        "server.ts"@,
        "server.js"@,
        "cli.ts"@,
        "cli.js"@,
        "entry.ts"@,
        "entry.tsx"@
    ]
}

/// The first known entry name that the (lowercased) path ends with or the
/// (lowercased) name equals.
pub open spec fn first_known_from(path: Seq<char>, name: Seq<char>, k: int) -> Option<int>
    decreases known_entry_names().len() - k,
{
    if k < 0 || k >= known_entry_names().len() {
        None
    } else if has_suffix(path, known_entry_names()[k]) || name == known_entry_names()[k] {
        Some(k)
    } else {
        first_known_from(path, name, k + 1)
    }
}

/// The evidence found for one file.
#[derive(Debug)]
pub struct EntryEvidence {
    /// Human-readable reasons, in the order the heuristics run.
    pub reasons: Vec<String>,
    /// The file has a well-known entry-point name.
    pub known_name: bool,
    /// The file lies in a `src/` directory.
    pub in_src: bool,
    /// The file lies in a `pages/` directory.
    pub in_pages: bool,
    /// Imported by many files while importing few.
    pub shared_module: bool,
    /// Imports many files while imported by few.
    pub orchestrator: bool,
    /// The name suggests startup logic.
    pub startup_name: bool,
}

/// The file's path ends with `n`, or its name is `n`.
pub open spec fn file_matches(path: Seq<char>, name: Seq<char>, n: Seq<char>) -> bool {
    has_suffix(path, n) || name == n
}

proof fn lemma_first_known(path: Seq<char>, name: Seq<char>, k: int)
    requires
        0 <= k <= known_entry_names().len(),
    ensures
        first_known_from(path, name, k) matches Some(q) ==> k <= q < known_entry_names().len()
            && file_matches(path, name, known_entry_names()[q]),
        first_known_from(path, name, k) is None ==> forall|q: int|
            k <= q < known_entry_names().len() ==> !file_matches(path, name, #[trigger] known_entry_names()[q]),
    decreases known_entry_names().len() - k,
{
    if k < known_entry_names().len() {
        lemma_first_known(path, name, k + 1);
    }
}

/// A file is marked as a known entry point exactly when its (lowercased)
/// path ends with, or its name equals, `main`, `index` or `app` with a
/// `.ts`, `.tsx`, `.js` or `.jsx` extension, `server` or `cli` with `.ts`
/// or `.js`, or `entry` with `.ts` or `.tsx`; the first reason then names
/// the matching file name.
pub proof fn lemma_known_entry_names(lp: Seq<char>, ln: Seq<char>, out: i64, inc: i64, e: EntryEvidence)
    requires
        lowered_evidence_ok(lp, ln, out, inc, e),
    ensures
        e.known_name <==> exists|n: Seq<char>| #[trigger] set!["main.ts"@, "main.tsx"@, "main.js"@, "main.jsx"@, "index.ts"@, "index.tsx"@, "index.js"@, "index.jsx"@, "app.ts"@, "app.tsx"@, "app.js"@, "app.jsx"@, "server.ts"@, "server.js"@, "cli.ts"@, "cli.js"@, "entry.ts"@, "entry.tsx"@].contains(n) && file_matches(lp, ln, n),
        e.known_name ==> exists|n: Seq<char>|
            #[trigger] set!["main.ts"@, "main.tsx"@, "main.js"@, "main.jsx"@, "index.ts"@, "index.tsx"@, "index.js"@, "index.jsx"@, "app.ts"@, "app.tsx"@, "app.js"@, "app.jsx"@, "server.ts"@, "server.js"@, "cli.ts"@, "cli.js"@, "entry.ts"@, "entry.tsx"@].contains(n) && file_matches(lp, ln, n) && e.reasons@.len() > 0
                && e.reasons@[0]@ == "filename matches '"@ + n + "'"@,
{
    let names = known_entry_names();
    assert(known_entry_names()[0] == "main.ts"@);
    assert(known_entry_names()[1] == "main.tsx"@);
    assert(known_entry_names()[2] == "main.js"@);
    assert(known_entry_names()[3] == "main.jsx"@);
    assert(known_entry_names()[4] == "index.ts"@);
    assert(known_entry_names()[5] == "index.tsx"@);
    assert(known_entry_names()[6] == "index.js"@);
    assert(known_entry_names()[7] == "index.jsx"@);
    assert(known_entry_names()[8] == "app.ts"@);
    assert(known_entry_names()[9] == "app.tsx"@);
    assert(known_entry_names()[10] == "app.js"@);
    assert(known_entry_names()[11] == "app.jsx"@);
    assert(known_entry_names()[12] == "server.ts"@);
    assert(known_entry_names()[13] == "server.js"@);
    assert(known_entry_names()[14] == "cli.ts"@);
    assert(known_entry_names()[15] == "cli.js"@);
    assert(known_entry_names()[16] == "entry.ts"@);
    assert(known_entry_names()[17] == "entry.tsx"@);
    assert(names.len() == 18);
    lemma_first_known(lp, ln, 0);
    let set = set!["main.ts"@, "main.tsx"@, "main.js"@, "main.jsx"@, "index.ts"@, "index.tsx"@, "index.js"@, "index.jsx"@, "app.ts"@, "app.tsx"@, "app.js"@, "app.jsx"@, "server.ts"@, "server.js"@, "cli.ts"@, "cli.js"@, "entry.ts"@, "entry.tsx"@];
    match first_known_from(lp, ln, 0) {
        Some(q) => {
            let n = names[q];
            assert(set.contains(n));
            let r0 = seq!["filename matches '"@ + n + "'"@];
            assert(e.reasons@[0]@ == r0[0]);
        },
        None => {
            assert forall|n: Seq<char>| #[trigger] set.contains(n) implies !file_matches(lp, ln, n) by {
                assert(exists|q: int| 0 <= q < names.len() && names[q] == n);
            }
        },
    }
}

/// The path lies in a directory named `dir`.
pub open spec fn in_dir(path: Seq<char>, dir: Seq<char>) -> bool {
    has_infix(path, seq!['/'] + dir + seq!['/']) || has_prefix(path, dir + seq!['/'])
}

/// Heavily imported (at least three importers, more than it imports).
pub open spec fn heavily_imported(out: i64, inc: i64) -> bool {
    inc >= 3 && inc > out
}

/// Everything the evidence says, for a file with this path, name and
/// import counts.
pub open spec fn evidence_ok(rel_path: Seq<char>, name: Seq<char>, out: i64, inc: i64, e: EntryEvidence) -> bool {
    lowered_evidence_ok(lowercase(rel_path), lowercase(name), out, inc, e)
}

/// Everything the evidence says, for a file with this lowercased path and
/// name and these import counts.
pub open spec fn lowered_evidence_ok(lp: Seq<char>, ln: Seq<char>, out: i64, inc: i64, e: EntryEvidence) -> bool {
    let known = first_known_from(lp, ln, 0);
    let r0 = match known {
        Some(k) => seq!["filename matches '"@ + known_entry_names()[k] + "'"@],
        None => Seq::empty(),
    };
    let r1 = r0 + if in_dir(lp, "src"@) {
        seq!["located in src/ directory"@]
    } else {
        Seq::empty()
    };
    let r2 = r1 + if in_dir(lp, "pages"@) {
        seq!["located in pages/ directory"@]
    } else {
        Seq::empty()
    };
    let r3 = r2 + if heavily_imported(out, inc) {
        seq![
            "imported by "@ + signed_dec(inc as int) + " files (outgoing: "@ + signed_dec(out as int)
                + ") \u{2014} likely shared module"@,
        ]
    } else {
        Seq::empty()
    };
    let orch = out >= 5 && inc < out / 2;
    let r4 = r3 + if orch {
        seq![
            "imports "@ + signed_dec(out as int) + " modules but only imported by "@ + signed_dec(inc as int)
                + " \u{2014} likely orchestrator"@,
        ]
    } else {
        Seq::empty()
    };
    let startup = has_infix(ln, "bootstrap"@) || has_infix(ln, "start"@) || has_infix(ln, "run"@);
    let r5 = r4 + if startup {
        seq!["name suggests startup logic"@]
    } else {
        Seq::empty()
    };
    &&& e.reasons@.len() == r5.len()
    &&& forall|i: int| 0 <= i < r5.len() ==> (#[trigger] e.reasons@[i])@ == r5[i]
    &&& e.known_name == (known is Some)
    &&& e.in_src == in_dir(lp, "src"@)
    &&& e.in_pages == in_dir(lp, "pages"@)
    &&& e.shared_module == (heavily_imported(out, inc) && out <= inc / 2)
    &&& e.orchestrator == orch
    &&& e.startup_name == startup
}

fn in_dir_exec(path: &str, slashed: &str, leading: &str) -> (r: bool)
    ensures
        r == (has_infix(path@, slashed@) || has_prefix(path@, leading@)),
{
    contains_text(path, slashed) || starts_with_text(path, leading)
}

fn push_reason(reasons: &mut Vec<String>, s: String)
    ensures
        final(reasons)@ == old(reasons)@.push(s),
{
    reasons.push(s);
}

/// The views of a list of strings.
pub open spec fn string_views(v: Seq<String>) -> Seq<Seq<char>> {
    Seq::new(v.len(), |i: int| v[i]@)
}

/// The known entry names, in order.
fn known_names() -> (names: Vec<&'static str>)
    ensures
        names@.len() == known_entry_names().len(),
        forall|q: int| 0 <= q < names@.len() ==> (#[trigger] names@[q])@ == known_entry_names()[q],
{
    let mut names: Vec<&'static str> = Vec::new();
    names.push("main.ts");
    names.push("main.tsx");
    names.push("main.js");
    names.push("main.jsx");
    names.push("index.ts");
    names.push("index.tsx");
    names.push("index.js");
    names.push("index.jsx");
    names.push("app.ts");
    names.push("app.tsx");
    names.push("app.js");
    names.push("app.jsx");
    names.push("server.ts");
    names.push("server.js");
    names.push("cli.ts");
    names.push("cli.js");
    names.push("entry.ts");
    names.push("entry.tsx");
    proof {
        assert forall|q: int| 0 <= q < names@.len() implies (#[trigger] names@[q])@ == known_entry_names()[q] by {}
    }
    names
}

/// The first known entry name matched by the lowercased path and name.
fn known_match(lp: &str, ln: &str) -> (r: Option<&'static str>)
    ensures
        match first_known_from(lp@, ln@, 0) {
            Some(q) => r matches Some(kn) && kn@ == known_entry_names()[q],
            None => r is None,
        },
{
    let names = known_names();
    let mut k: usize = 0;
    while k < names.len()
        invariant
            names@.len() == known_entry_names().len(),
            forall|q: int| 0 <= q < names@.len() ==> (#[trigger] names@[q])@ == known_entry_names()[q],
            k <= names.len(),
            first_known_from(lp@, ln@, 0) == first_known_from(lp@, ln@, k as int),
        decreases names.len() - k,
    {
        let kn = names[k];
        if ends_with_text(lp, kn) || text_eq(ln, kn) {
            proof {
                assert(names@[k as int]@ == known_entry_names()[k as int]);
                assert(first_known_from(lp@, ln@, k as int) == Some(k as int));
            }
            return Some(kn);
        }
        k = k + 1;
    }
    None
}

/// Collects the entry-point evidence for a file from its relative path,
/// its name and how many files it imports (`out`) and is imported by
/// (`inc`).
pub fn entry_evidence(rel_path: &str, name: &str, out: i64, inc: i64) -> (e: EntryEvidence)
    requires
        out >= 0,
        inc >= 0,
    ensures
        evidence_ok(rel_path@, name@, out, inc, e),
{
    let lower = to_lowercase(rel_path);
    let name_lower = to_lowercase(name);
    entry_evidence_lowered(lower.as_str(), name_lower.as_str(), out, inc)
}

/// Collects the entry-point evidence for a file from its already
/// lowercased relative path and name and its import counts.
#[verifier::spinoff_prover]
#[verifier::rlimit(40)]
pub fn entry_evidence_lowered(lp: &str, ln: &str, out: i64, inc: i64) -> (e: EntryEvidence)
    requires
        out >= 0,
        inc >= 0,
    ensures
        lowered_evidence_ok(lp@, ln@, out, inc, e),
{
    let mut reasons: Vec<String> = Vec::new();
    let ghost lpv = lp@;
    let ghost lnv = ln@;
    let known_name = known_match(lp, ln);
    let known = known_name.is_some();
    match known_name {
        Some(kn) => {
            let mut s = String::from_str("filename matches '");
            s.append(kn);
            s.append("'");
            push_reason(&mut reasons, s);
        },
        None => {},
    }
    let ghost r0 = string_views(reasons@);
    proof {
        let known_spec = first_known_from(lpv, lnv, 0);
        let spec_r0: Seq<Seq<char>> = match known_spec {
            Some(q) => seq!["filename matches '"@ + known_entry_names()[q] + "'"@],
            None => Seq::empty(),
        };
        assert(r0 =~= spec_r0);
    }
    let in_src = in_dir_exec(lp, "/src/", "src/");
    if in_src {
        push_reason(&mut reasons, String::from_str("located in src/ directory"));
    }
    let ghost r1 = string_views(reasons@);
    proof {
        reveal_strlit("/src/");
        reveal_strlit("src/");
        reveal_strlit("src");
        assert("/src/"@ =~= seq!['/'] + "src"@ + seq!['/']);
        assert("src/"@ =~= "src"@ + seq!['/']);
        assert(has_infix(lpv, "/src/"@) == has_infix(lpv, seq!['/'] + "src"@ + seq!['/']));
        assert(has_prefix(lpv, "src/"@) == has_prefix(lpv, "src"@ + seq!['/']));
        assert(in_src == in_dir(lpv, "src"@));
        assert(r1 =~= r0 + if in_dir(lpv, "src"@) {
            seq!["located in src/ directory"@]
        } else {
            Seq::<Seq<char>>::empty()
        });
    }
    let in_pages = in_dir_exec(lp, "/pages/", "pages/");
    if in_pages {
        push_reason(&mut reasons, String::from_str("located in pages/ directory"));
    }
    let ghost r2 = string_views(reasons@);
    proof {
        reveal_strlit("/pages/");
        reveal_strlit("pages/");
        reveal_strlit("pages");
        assert("/pages/"@ =~= seq!['/'] + "pages"@ + seq!['/']);
        assert("pages/"@ =~= "pages"@ + seq!['/']);
        assert(has_infix(lpv, "/pages/"@) == has_infix(lpv, seq!['/'] + "pages"@ + seq!['/']));
        assert(has_prefix(lpv, "pages/"@) == has_prefix(lpv, "pages"@ + seq!['/']));
        assert(in_pages == in_dir(lpv, "pages"@));
        assert(r2 =~= r1 + if in_dir(lpv, "pages"@) {
            seq!["located in pages/ directory"@]
        } else {
            Seq::<Seq<char>>::empty()
        });
    }
    let shared = inc >= 3 && inc > out;
    let mut shared_module = false;
    if shared {
        let mut s = String::from_str("imported by ");
        append_i64(&mut s, inc);
        s.append(" files (outgoing: ");
        append_i64(&mut s, out);
        s.append(") \u{2014} likely shared module");
        push_reason(&mut reasons, s);
        shared_module = out <= inc / 2;
    }
    let ghost r3 = string_views(reasons@);
    proof {
        assert(r3 =~= r2 + if heavily_imported(out, inc) {
            seq![
                "imported by "@ + signed_dec(inc as int) + " files (outgoing: "@ + signed_dec(out as int)
                    + ") \u{2014} likely shared module"@,
            ]
        } else {
            Seq::<Seq<char>>::empty()
        });
    }
    let orchestrator = out >= 5 && inc < out / 2;
    if orchestrator {
        let mut s = String::from_str("imports ");
        append_i64(&mut s, out);
        s.append(" modules but only imported by ");
        append_i64(&mut s, inc);
        s.append(" \u{2014} likely orchestrator");
        push_reason(&mut reasons, s);
    }
    let ghost r4 = string_views(reasons@);
    proof {
        assert(r4 =~= r3 + if orchestrator {
            seq![
                "imports "@ + signed_dec(out as int) + " modules but only imported by "@ + signed_dec(inc as int)
                    + " \u{2014} likely orchestrator"@,
            ]
        } else {
            Seq::<Seq<char>>::empty()
        });
    }
    let startup = contains_text(ln, "bootstrap") || contains_text(ln, "start") || contains_text(ln, "run");
    if startup {
        push_reason(&mut reasons, String::from_str("name suggests startup logic"));
    }
    let ghost r5 = string_views(reasons@);
    proof {
        assert(r5 =~= r4 + if startup {
            seq!["name suggests startup logic"@]
        } else {
            Seq::<Seq<char>>::empty()
        });
        assert forall|i: int| 0 <= i < r5.len() implies (#[trigger] reasons@[i])@ == r5[i] by {}
    }
    let e = EntryEvidence {
        reasons,
        known_name: known,
        in_src,
        in_pages,
        shared_module,
        orchestrator,
        startup_name: startup,
    };
    e
}

/// Number of imports that `id` makes.
pub open spec fn out_degree(edges: Seq<(i64, i64)>, id: i64) -> nat
    decreases edges.len(),
{
    if edges.len() == 0 {
        0
    } else {
        out_degree(edges.drop_last(), id) + if edges.last().0 == id {
            1nat
        } else {
            0nat
        }
    }
}

/// The import count of `id`: made (`by_source`) or received.
pub open spec fn degree(edges: Seq<(i64, i64)>, id: i64, by_source: bool) -> nat {
    if by_source {
        out_degree(edges, id)
    } else {
        in_degree(edges, id)
    }
}

/// Counts, for every file id, the imports it makes (`by_source`) or
/// receives.
fn degree_map(edges: &Vec<(i64, i64)>, by_source: bool) -> (m: HashMap<i64, i64>)
    requires
        edges.len() < i64::MAX,
    ensures
        forall|id: i64| #[trigger] m@.contains_key(id) ==> m@[id] == degree(edges@, id, by_source),
        forall|id: i64| !#[trigger] m@.contains_key(id) ==> degree(edges@, id, by_source) == 0,
        forall|id: i64| degree(edges@, id, by_source) <= edges.len(),
{
    let mut m: HashMap<i64, i64> = HashMap::new();
    let mut i: usize = 0;
    while i < edges.len()
        invariant
            i <= edges.len(),
            edges.len() < i64::MAX,
            forall|id: i64|
                #[trigger] m@.contains_key(id) ==> m@[id] == degree(edges@.take(i as int), id, by_source),
            forall|id: i64| !#[trigger] m@.contains_key(id) ==> degree(edges@.take(i as int), id, by_source) == 0,
            forall|id: i64| #[trigger] degree(edges@.take(i as int), id, by_source) <= i,
        decreases edges.len() - i,
    {
        let key = if by_source {
            edges[i].0
        } else {
            edges[i].1
        };
        proof {
            let e0 = edges@.take(i as int);
            let e1 = edges@.take(i + 1);
            assert(e1.drop_last() =~= e0);
            assert(e1.last() == edges@[i as int]);
            assert forall|id: i64| #[trigger] degree(e1, id, by_source) <= i + 1 by {
                assert(degree(e0, id, by_source) <= i);
            }
        }
        let cur: i64 = match m.get(&key) {
            Some(c) => *c,
            None => 0,
        };
        proof {
            assert(degree(edges@.take(i as int), key, by_source) <= i);
        }
        m.insert(key, cur + 1);
        i = i + 1;
    }
    proof {
        assert(edges@.take(i as int) =~= edges@);
    }
    m
}

/// The entry-point evidence of every listed file (id, relative path,
/// name), with the imports it makes and receives counted over `edges`
/// (importer, imported).
pub fn files_evidence(files: &Vec<(i64, String, String)>, edges: &Vec<(i64, i64)>) -> (r: Vec<EntryEvidence>)
    requires
        edges.len() < i64::MAX,
    ensures
        r.len() == files.len(),
        forall|i: int|
            0 <= i < files.len() ==> evidence_ok(
                files[i].1@,
                files[i].2@,
                out_degree(edges@, files[i].0) as i64,
                in_degree(edges@, files[i].0) as i64,
                #[trigger] r[i],
            ),
{
    let outgoing = degree_map(edges, true);
    let incoming = degree_map(edges, false);
    let mut r: Vec<EntryEvidence> = Vec::new();
    let mut i: usize = 0;
    while i < files.len()
        invariant
            i <= files.len(),
            r.len() == i,
            forall|id: i64| #[trigger] outgoing@.contains_key(id) ==> outgoing@[id] == degree(edges@, id, true),
            forall|id: i64| !#[trigger] outgoing@.contains_key(id) ==> degree(edges@, id, true) == 0,
            forall|id: i64| #[trigger] incoming@.contains_key(id) ==> incoming@[id] == degree(edges@, id, false),
            forall|id: i64| !#[trigger] incoming@.contains_key(id) ==> degree(edges@, id, false) == 0,
            forall|j: int|
                0 <= j < i ==> evidence_ok(
                    files[j].1@,
                    files[j].2@,
                    out_degree(edges@, files[j].0) as i64,
                    in_degree(edges@, files[j].0) as i64,
                    #[trigger] r[j],
                ),
        decreases files.len() - i,
    {
        let f = &files[i];
        let out: i64 = match outgoing.get(&f.0) {
            Some(c) => *c,
            None => 0,
        };
        let inc: i64 = match incoming.get(&f.0) {
            Some(c) => *c,
            None => 0,
        };
        proof {
            assert(out == degree(edges@, f.0, true));
            assert(inc == degree(edges@, f.0, false));
        }
        let e = entry_evidence(f.1.as_str(), f.2.as_str(), out, inc);
        r.push(e);
        i = i + 1;
    }
    r
}

} // verus!
