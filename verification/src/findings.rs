//! Structural findings: what the index queries report is turned into the
//! findings shown to the user. The queries themselves run against the
//! database around these functions.
use vstd::prelude::*;
use vstd::string::StringExecFns;

use crate::decimal::{append_i64, append_u64, dec, signed_dec};
use crate::entrypoint::string_views;
use crate::models::StructuralFinding;

verus! {

/// The finding has these fixed texts and this evidence.
pub open spec fn finding_is(
    f: StructuralFinding,
    category: Seq<char>,
    severity: Seq<char>,
    title: Seq<char>,
    description: Seq<char>,
    evidence: Seq<Seq<char>>,
    limitation: Seq<char>,
    investigation: Seq<char>,
) -> bool {
    &&& f.category@ == category
    &&& f.severity@ == severity
    &&& f.title@ == title
    &&& f.description@ == description
    &&& string_views(f.evidence@) == evidence
    &&& f.limitation@ == limitation
    &&& f.investigation@ == investigation
}

/// Each text with the same prefix in front.
pub open spec fn prefixed(prefix: Seq<char>, items: Seq<String>) -> Seq<Seq<char>> {
    Seq::new(items.len(), |i: int| prefix + items[i]@)
}

fn prefix_all(prefix: &str, items: &Vec<String>) -> (r: Vec<String>)
    ensures
        string_views(r@) == prefixed(prefix@, items@),
{
    let mut out: Vec<String> = Vec::new();
    let mut i: usize = 0;
    while i < items.len()
        invariant
            i <= items.len(),
            out@.len() == i,
            string_views(out@) == prefixed(prefix@, items@.take(i as int)),
        decreases items.len() - i,
    {
        let mut s = String::from_str(prefix);
        s.append(items[i].as_str());
        let ghost pre = out@;
        out.push(s);
        proof {
            assert forall|k: int| 0 <= k < i + 1 implies #[trigger] string_views(out@)[k] == prefixed(
                prefix@,
                items@.take(i + 1),
            )[k] by {
                if k < i {
                    assert(out@[k] == pre[k]);
                    assert(string_views(pre)[k] == prefixed(prefix@, items@.take(i as int))[k]);
                }
            }
            assert(string_views(out@) =~= prefixed(prefix@, items@.take(i + 1)));
        }
        i = i + 1;
    }
    proof {
        assert(items@.take(i as int) =~= items@);
    }
    out
}

/// The finding on local imports that did not resolve: `count` such imports,
/// `unresolved` the distinct specifiers listed as evidence. None when there
/// are none.
pub fn unresolved_imports_finding(count: i64, unresolved: &Vec<String>) -> (r: Option<StructuralFinding>)
    ensures
        r is Some <==> count > 0,
        r matches Some(f) ==> finding_is(
            f,
            "unresolved_import"@,
            "warning"@,
            signed_dec(count as int) + " file(s) have unresolved local imports"@,
            "These imports could not be resolved to a file within the workspace. This may indicate missing or misnamed files."@,
            prefixed("unresolved: "@, unresolved@),
            "Resolution only checks .ts/.tsx/.js/.jsx extensions; files with non-standard extensions or build output may be missed."@,
            "Search for the imported path in the workspace or adjust the resolver's extension list."@,
        ),
{
    if count <= 0 {
        return None;
    }
    let mut title = String::new();
    append_i64(&mut title, count);
    title.append(" file(s) have unresolved local imports");
    Some(
        StructuralFinding {
            category: String::from_str("unresolved_import"),
            severity: String::from_str("warning"),
            title,
            description: String::from_str(
                "These imports could not be resolved to a file within the workspace. This may indicate missing or misnamed files.",
            ),
            evidence: prefix_all("unresolved: ", unresolved),
            limitation: String::from_str(
                "Resolution only checks .ts/.tsx/.js/.jsx extensions; files with non-standard extensions or build output may be missed.",
            ),
            investigation: String::from_str(
                "Search for the imported path in the workspace or adjust the resolver's extension list.",
            ),
        },
    )
}

/// A module counts as highly connected above this many imports in and out.
pub const CONNECTION_THRESHOLD: i64 = 15;

/// The evidence line for a module with its outgoing and incoming imports.
pub open spec fn connection_line(path: Seq<char>, out_d: i64, in_d: i64) -> Seq<char> {
    path + " (out: "@ + signed_dec(out_d as int) + ", in: "@ + signed_dec(in_d as int) + ", total: "@
        + signed_dec(out_d + in_d) + ")"@
}

/// The evidence lines of the rows above the threshold, in order.
pub open spec fn connected_evidence(rows: Seq<(String, i64, i64)>) -> Seq<Seq<char>>
    decreases rows.len(),
{
    if rows.len() == 0 {
        Seq::empty()
    } else {
        let prev = connected_evidence(rows.drop_last());
        let r = rows.last();
        if r.1 + r.2 > CONNECTION_THRESHOLD {
            prev.push(connection_line(r.0@, r.1, r.2))
        } else {
            prev
        }
    }
}

/// The finding on the most connected modules: `rows` holds each candidate
/// module's path with its outgoing and incoming import counts; those above
/// the threshold are the evidence. None when no row is above it.
pub fn highly_connected_finding(rows: &Vec<(String, i64, i64)>) -> (r: Option<StructuralFinding>)
    requires
        forall|i: int|
            0 <= i < rows.len() ==> i64::MIN <= (#[trigger] rows@[i]).1 + rows@[i].2 <= i64::MAX,
    ensures
        r is Some <==> connected_evidence(rows@).len() > 0,
        r matches Some(f) ==> finding_is(
            f,
            "highly_connected"@,
            "info"@,
            "Highly connected modules detected"@,
            "These files have the most import relationships. They may be difficult to change without cascading effects."@,
            connected_evidence(rows@),
            "Connection count is based on static imports only; dynamic imports and runtime dependencies are not included."@,
            "Check if these modules can be decomposed or if their API can be narrowed."@,
        ),
{
    let mut evidence: Vec<String> = Vec::new();
    let mut i: usize = 0;
    while i < rows.len()
        invariant
            i <= rows.len(),
            forall|j: int| 0 <= j < rows.len() ==> i64::MIN <= (#[trigger] rows@[j]).1 + rows@[j].2 <= i64::MAX,
            string_views(evidence@) == connected_evidence(rows@.take(i as int)),
        decreases rows.len() - i,
    {
        let out_d = rows[i].1;
        let in_d = rows[i].2;
        let total = out_d + in_d;
        proof {
            assert(rows@.take(i + 1).drop_last() =~= rows@.take(i as int));
            assert(rows@.take(i + 1).last() == rows@[i as int]);
        }
        if total > CONNECTION_THRESHOLD {
            let mut s = String::from_str(rows[i].0.as_str());
            s.append(" (out: ");
            append_i64(&mut s, out_d);
            s.append(", in: ");
            append_i64(&mut s, in_d);
            s.append(", total: ");
            append_i64(&mut s, total);
            s.append(")");
            let ghost pre = evidence@;
            evidence.push(s);
            proof {
                assert forall|k: int| 0 <= k < pre.len() implies #[trigger] string_views(evidence@)[k] == string_views(pre)[k] by {
                    assert(evidence@[k] == pre[k]);
                }
                assert(string_views(evidence@) =~= connected_evidence(rows@.take(i as int)).push(
                    connection_line(rows@[i as int].0@, out_d, in_d),
                ));
            }
        }
        i = i + 1;
    }
    proof {
        assert(rows@.take(i as int) =~= rows@);
    }
    if evidence.len() == 0 {
        return None;
    }
    Some(
        StructuralFinding {
            category: String::from_str("highly_connected"),
            severity: String::from_str("info"),
            title: String::from_str("Highly connected modules detected"),
            description: String::from_str(
                "These files have the most import relationships. They may be difficult to change without cascading effects.",
            ),
            evidence,
            limitation: String::from_str(
                "Connection count is based on static imports only; dynamic imports and runtime dependencies are not included.",
            ),
            investigation: String::from_str(
                "Check if these modules can be decomposed or if their API can be narrowed.",
            ),
        },
    )
}

/// The finding on files with no import relationships, listed as evidence.
/// None when there are none.
pub fn orphaned_files_finding(orphans: Vec<String>) -> (r: Option<StructuralFinding>)
    ensures
        r is Some <==> orphans@.len() > 0,
        r matches Some(f) ==> finding_is(
            f,
            "orphaned_file"@,
            "info"@,
            dec(orphans@.len()) + " file(s) have no import relationships"@,
            "These files neither import nor are imported by any other file in the workspace. They may be unused, test fixtures, or configuration files."@,
            string_views(orphans@),
            "Files used only at runtime (e.g., dynamic imports, configuration loaded via fs) will appear orphaned."@,
            "Open each file and assess whether it serves a purpose. Unused files can be removed or marked as documentation-only."@,
        ),
{
    if orphans.len() == 0 {
        return None;
    }
    let mut title = String::new();
    append_u64(&mut title, orphans.len() as u64);
    title.append(" file(s) have no import relationships");
    Some(
        StructuralFinding {
            category: String::from_str("orphaned_file"),
            severity: String::from_str("info"),
            title,
            description: String::from_str(
                "These files neither import nor are imported by any other file in the workspace. They may be unused, test fixtures, or configuration files.",
            ),
            evidence: orphans,
            limitation: String::from_str(
                "Files used only at runtime (e.g., dynamic imports, configuration loaded via fs) will appear orphaned.",
            ),
            investigation: String::from_str(
                "Open each file and assess whether it serves a purpose. Unused files can be removed or marked as documentation-only.",
            ),
        },
    )
}

/// The evidence line for an exported symbol and its file.
pub open spec fn unused_lines(unused: Seq<(String, String)>) -> Seq<Seq<char>> {
    Seq::new(unused.len(), |i: int| unused[i].0@ + " in "@ + unused[i].1@)
}

/// The finding on exported symbols whose file nobody imports: `unused`
/// holds each symbol's name and file. None when there are none.
pub fn unused_exports_finding(unused: &Vec<(String, String)>) -> (r: Option<StructuralFinding>)
    ensures
        r is Some <==> unused@.len() > 0,
        r matches Some(f) ==> finding_is(
            f,
            "unused_export"@,
            "info"@,
            dec(unused@.len()) + " exported symbol(s) may be unused within the workspace"@,
            "These symbols are exported but their file is not imported by any other workspace file. They may be part of a public API or genuinely unused."@,
            unused_lines(unused@),
            "Import resolution only covers static imports; runtime or external consumers are not tracked."@,
            "Check whether these exports are consumed via dynamic imports, external packages, or are intended as public API."@,
        ),
{
    if unused.len() == 0 {
        return None;
    }
    let mut evidence: Vec<String> = Vec::new();
    let mut i: usize = 0;
    while i < unused.len()
        invariant
            i <= unused.len(),
            evidence@.len() == i,
            string_views(evidence@) == unused_lines(unused@.take(i as int)),
        decreases unused.len() - i,
    {
        let mut s = String::from_str(unused[i].0.as_str());
        s.append(" in ");
        s.append(unused[i].1.as_str());
        let ghost pre = evidence@;
        evidence.push(s);
        proof {
            assert forall|k: int| 0 <= k < i + 1 implies #[trigger] string_views(evidence@)[k] == unused_lines(
                unused@.take(i + 1),
            )[k] by {
                if k < i {
                    assert(evidence@[k] == pre[k]);
                    assert(string_views(pre)[k] == unused_lines(unused@.take(i as int))[k]);
                }
            }
            assert(string_views(evidence@) =~= unused_lines(unused@.take(i + 1)));
        }
        i = i + 1;
    }
    proof {
        assert(unused@.take(i as int) =~= unused@);
    }
    let mut title = String::new();
    append_u64(&mut title, unused.len() as u64);
    title.append(" exported symbol(s) may be unused within the workspace");
    Some(
        StructuralFinding {
            category: String::from_str("unused_export"),
            severity: String::from_str("info"),
            title,
            description: String::from_str(
                "These symbols are exported but their file is not imported by any other workspace file. They may be part of a public API or genuinely unused.",
            ),
            evidence,
            limitation: String::from_str(
                "Import resolution only covers static imports; runtime or external consumers are not tracked.",
            ),
            investigation: String::from_str(
                "Check whether these exports are consumed via dynamic imports, external packages, or are intended as public API.",
            ),
        },
    )
}

} // verus!
