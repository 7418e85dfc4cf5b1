//! Platform-aware path comparison over path components, so that folder
//! registration and root-containment checks behave alike on Windows,
//! macOS and Linux.
use vstd::prelude::*;

use crate::text::{lowercase, text_eq, to_lowercase};

verus! {

/// One component of a path, as the platform's path parser splits it.
#[derive(Debug)]
pub enum PathComponent {
    /// A Windows prefix such as `C:` or `\\server\share`.
    Prefix(String),
    RootDir,
    CurDir,
    ParentDir,
    Normal(String),
}

/// Two components name the same thing; normal components are compared
/// after lowercasing where the platform ignores case.
pub open spec fn component_matches(a: PathComponent, b: PathComponent, case_insensitive: bool) -> bool {
    match (a, b) {
        (PathComponent::Prefix(x), PathComponent::Prefix(y)) => x@ == y@,
        (PathComponent::RootDir, PathComponent::RootDir) => true,
        (PathComponent::CurDir, PathComponent::CurDir) => true,
        (PathComponent::ParentDir, PathComponent::ParentDir) => true,
        (PathComponent::Normal(x), PathComponent::Normal(y)) => if case_insensitive {
            lowercase(x@) == lowercase(y@)
        } else {
            x@ == y@
        },
        _ => false,
    }
}

/// The first `n` components of `a` and `b` match pairwise.
pub open spec fn prefix_matches(a: Seq<PathComponent>, b: Seq<PathComponent>, n: int, case_insensitive: bool) -> bool {
    forall|i: int| 0 <= i < n ==> component_matches(#[trigger] a[i], b[i], case_insensitive)
}

/// Compares two components with the platform's case sensitivity.
pub fn components_equal(left: &PathComponent, right: &PathComponent, case_insensitive: bool) -> (r: bool)
    ensures
        r == component_matches(*left, *right, case_insensitive),
{
    match (left, right) {
        (PathComponent::Prefix(a), PathComponent::Prefix(b)) => text_eq(a.as_str(), b.as_str()),
        (PathComponent::RootDir, PathComponent::RootDir) => true,
        (PathComponent::CurDir, PathComponent::CurDir) => true,
        (PathComponent::ParentDir, PathComponent::ParentDir) => true,
        (PathComponent::Normal(a), PathComponent::Normal(b)) => {
            if case_insensitive {
                let la = to_lowercase(a.as_str());
                let lb = to_lowercase(b.as_str());
                text_eq(la.as_str(), lb.as_str())
            } else {
                text_eq(a.as_str(), b.as_str())
            }
        },
        _ => false,
    }
}

/// One component added to an already normalised path: `.` is dropped,
/// `..` removes the last named component, stays at the root directory, and
/// is kept where nothing can be removed (a relative path climbing up).
pub open spec fn normal_step(acc: Seq<PathComponent>, c: PathComponent) -> Seq<PathComponent> {
    match c {
        PathComponent::CurDir => acc,
        PathComponent::ParentDir => if acc.len() > 0 && acc.last() is Normal {
            acc.drop_last()
        } else if acc.len() > 0 && acc.last() is RootDir {
            acc
        } else {
            acc.push(c)
        },
        _ => acc.push(c),
    }
}

/// The path with `.` and `..` resolved lexically, left to right.
pub open spec fn normalized(p: Seq<PathComponent>) -> Seq<PathComponent>
    decreases p.len(),
{
    if p.len() == 0 {
        Seq::empty()
    } else {
        normal_step(normalized(p.drop_last()), p.last())
    }
}

/// The two paths have equally many components, matching pairwise as
/// given (`.` and `..` are compared like any other component).
pub open spec fn same_components(a: Seq<PathComponent>, b: Seq<PathComponent>, case_insensitive: bool) -> bool {
    a.len() == b.len() && prefix_matches(a, b, a.len() as int, case_insensitive)
}

/// `root`'s components, as given, are a proper prefix of `candidate`'s.
pub open spec fn components_below(root: Seq<PathComponent>, candidate: Seq<PathComponent>, case_insensitive: bool) -> bool {
    candidate.len() > root.len() && prefix_matches(root, candidate, root.len() as int, case_insensitive)
}

/// The path holds no `.` and no `..` component.
pub open spec fn is_plain(p: Seq<PathComponent>) -> bool {
    forall|i: int| 0 <= i < p.len() ==> !(#[trigger] p[i] is CurDir) && !(p[i] is ParentDir)
}

/// Once normalised, `root` is a component prefix of `candidate`.
pub open spec fn inside_or_equal(root: Seq<PathComponent>, candidate: Seq<PathComponent>, case_insensitive: bool) -> bool {
    let nr = normalized(root);
    let nc = normalized(candidate);
    nc.len() >= nr.len() && prefix_matches(nr, nc, nr.len() as int, case_insensitive)
}


/// The components picked out by `idx`, in order.
pub open spec fn picked(p: Seq<PathComponent>, idx: Seq<usize>) -> Seq<PathComponent> {
    Seq::new(idx.len(), |i: int| p[idx[i] as int])
}

/// The positions of the components that the normalised path keeps.
fn normal_positions(p: &Vec<PathComponent>) -> (idx: Vec<usize>)
    ensures
        forall|i: int| 0 <= i < idx.len() ==> #[trigger] idx[i] < p.len(),
        picked(p@, idx@) == normalized(p@),
{
    let mut idx: Vec<usize> = Vec::new();
    let mut k: usize = 0;
    proof {
        assert(picked(p@, idx@) =~= normalized(p@.take(0)));
    }
    while k < p.len()
        invariant
            k <= p.len(),
            forall|i: int| 0 <= i < idx.len() ==> #[trigger] idx[i] < p.len(),
            picked(p@, idx@) == normalized(p@.take(k as int)),
        decreases p.len() - k,
    {
        let ghost acc = picked(p@, idx@);
        proof {
            assert(p@.take(k + 1).drop_last() =~= p@.take(k as int));
            assert(p@.take(k + 1).last() == p@[k as int]);
        }
        match &p[k] {
            PathComponent::CurDir => {},
            PathComponent::ParentDir => {
                let n = idx.len();
                let mut drop = false;
                let mut keep = false;
                if n > 0 {
                    proof {
                        assert(acc.last() == p@[idx@[n - 1] as int]);
                    }
                    match &p[idx[n - 1]] {
                        PathComponent::Normal(_) => {
                            drop = true;
                        },
                        PathComponent::RootDir => {
                            keep = true;
                        },
                        _ => {},
                    }
                }
                if drop {
                    idx.pop();
                    proof {
                        assert(picked(p@, idx@) =~= acc.drop_last());
                    }
                } else if !keep {
                    idx.push(k);
                    proof {
                        assert(picked(p@, idx@) =~= acc.push(p@[k as int]));
                    }
                }
            },
            _ => {
                idx.push(k);
                proof {
                    assert(picked(p@, idx@) =~= acc.push(p@[k as int]));
                }
            },
        }
        k = k + 1;
    }
    proof {
        assert(p@.take(p.len() as int) =~= p@);
    }
    idx
}

/// The first `n` picked components of `a` and `b` match pairwise.
fn picked_prefix_equal(
    a: &Vec<PathComponent>,
    ia: &Vec<usize>,
    b: &Vec<PathComponent>,
    ib: &Vec<usize>,
    n: usize,
    case_insensitive: bool,
) -> (r: bool)
    requires
        n <= ia.len(),
        n <= ib.len(),
        forall|i: int| 0 <= i < ia.len() ==> #[trigger] ia[i] < a.len(),
        forall|i: int| 0 <= i < ib.len() ==> #[trigger] ib[i] < b.len(),
    ensures
        r == prefix_matches(picked(a@, ia@), picked(b@, ib@), n as int, case_insensitive),
{
    let mut i: usize = 0;
    while i < n
        invariant
            i <= n <= ia.len(),
            n <= ib.len(),
            forall|j: int| 0 <= j < ia.len() ==> #[trigger] ia[j] < a.len(),
            forall|j: int| 0 <= j < ib.len() ==> #[trigger] ib[j] < b.len(),
            prefix_matches(picked(a@, ia@), picked(b@, ib@), i as int, case_insensitive),
        decreases n - i,
    {
        let ghost pa = picked(a@, ia@);
        let ghost pb = picked(b@, ib@);
        proof {
            assert(pa[i as int] == a@[ia@[i as int] as int]);
            assert(pb[i as int] == b@[ib@[i as int] as int]);
        }
        if !components_equal(&a[ia[i]], &b[ib[i]], case_insensitive) {
            return false;
        }
        i = i + 1;
    }
    true
}

/// The first `n` components of `a` and `b` match pairwise, as given.
fn components_prefix_equal(a: &Vec<PathComponent>, b: &Vec<PathComponent>, n: usize, case_insensitive: bool) -> (r: bool)
    requires
        n <= a.len(),
        n <= b.len(),
    ensures
        r == prefix_matches(a@, b@, n as int, case_insensitive),
{
    let mut i: usize = 0;
    while i < n
        invariant
            i <= n <= a.len(),
            n <= b.len(),
            prefix_matches(a@, b@, i as int, case_insensitive),
        decreases n - i,
    {
        if !components_equal(&a[i], &b[i], case_insensitive) {
            return false;
        }
        i = i + 1;
    }
    true
}

/// Compares two paths component by component, as given, with the
/// platform's case sensitivity.
pub fn paths_equal(left: &Vec<PathComponent>, right: &Vec<PathComponent>, case_insensitive: bool) -> (r: bool)
    ensures
        r == same_components(left@, right@, case_insensitive),
{
    if left.len() != right.len() {
        return false;
    }
    components_prefix_equal(left, right, left.len(), case_insensitive)
}

/// `candidate` is `root` or lies below it, once `.` and `..` are resolved
/// in both: a `..` that climbs out of the root leaves it.
pub fn path_is_inside_or_equal(root: &Vec<PathComponent>, candidate: &Vec<PathComponent>, case_insensitive: bool) -> (r: bool)
    ensures
        r == inside_or_equal(root@, candidate@, case_insensitive),
{
    let ir = normal_positions(root);
    let ic = normal_positions(candidate);
    if ic.len() < ir.len() {
        return false;
    }
    picked_prefix_equal(root, &ir, candidate, &ic, ir.len(), case_insensitive)
}

/// `candidate` has more components than `root`, and begins with `root`'s
/// components, as given.
pub fn path_is_strict_descendant(root: &Vec<PathComponent>, candidate: &Vec<PathComponent>, case_insensitive: bool) -> (r: bool)
    ensures
        r == components_below(root@, candidate@, case_insensitive),
{
    if candidate.len() <= root.len() {
        return false;
    }
    components_prefix_equal(root, candidate, root.len(), case_insensitive)
}

/// Paths whose components match pairwise resolve to paths whose components
/// match pairwise.
proof fn lemma_normalized_matches(a: Seq<PathComponent>, b: Seq<PathComponent>, case_insensitive: bool)
    requires
        same_components(a, b, case_insensitive),
    ensures
        same_components(normalized(a), normalized(b), case_insensitive),
    decreases a.len(),
{
    if a.len() > 0 {
        let a0 = a.drop_last();
        let b0 = b.drop_last();
        assert(prefix_matches(a0, b0, a0.len() as int, case_insensitive)) by {
            assert forall|i: int| 0 <= i < a0.len() implies component_matches(#[trigger] a0[i], b0[i], case_insensitive) by {
                assert(component_matches(a[i], b[i], case_insensitive));
            }
        }
        lemma_normalized_matches(a0, b0, case_insensitive);
        let na = normalized(a0);
        let nb = normalized(b0);
        let x = a.last();
        let y = b.last();
        assert(component_matches(a[a.len() - 1], b[b.len() - 1], case_insensitive));
        let ra = normalized(a);
        let rb = normalized(b);
        assert(ra == normal_step(na, x));
        assert(rb == normal_step(nb, y));
        if na.len() > 0 {
            assert(component_matches(na[na.len() - 1], nb[nb.len() - 1], case_insensitive));
        }
        assert forall|i: int| 0 <= i < ra.len() implies component_matches(#[trigger] ra[i], rb[i], case_insensitive) by {
            if i < na.len() {
                assert(component_matches(na[i], nb[i], case_insensitive));
            }
        }
    }
}

/// A path without `.` and `..` is its own resolved form.
pub proof fn lemma_plain_normalized(p: Seq<PathComponent>)
    requires
        is_plain(p),
    ensures
        normalized(p) == p,
    decreases p.len(),
{
    if p.len() > 0 {
        let q = p.drop_last();
        assert(is_plain(q)) by {
            assert forall|i: int| 0 <= i < q.len() implies !(#[trigger] q[i] is CurDir) && !(q[i] is ParentDir) by {
                assert(q[i] == p[i]);
            }
        }
        lemma_plain_normalized(q);
        assert(!(p[p.len() - 1] is CurDir) && !(p[p.len() - 1] is ParentDir));
        assert(q.push(p.last()) =~= p);
    }
}

/// For paths without `.` and `..`, "inside or equal" is exactly "the
/// root's components are a prefix of the candidate's", and a strict
/// descendant is inside its root.
pub proof fn lemma_plain_inside(root: Seq<PathComponent>, candidate: Seq<PathComponent>, case_insensitive: bool)
    requires
        is_plain(root),
        is_plain(candidate),
    ensures
        inside_or_equal(root, candidate, case_insensitive) == (candidate.len() >= root.len() && prefix_matches(
            root,
            candidate,
            root.len() as int,
            case_insensitive,
        )),
        components_below(root, candidate, case_insensitive) ==> inside_or_equal(root, candidate, case_insensitive),
{
    lemma_plain_normalized(root);
    lemma_plain_normalized(candidate);
}

/// Two paths are never strict descendants of each other, and no path is a
/// strict descendant of itself.
pub proof fn lemma_descendant_laws(a: Seq<PathComponent>, b: Seq<PathComponent>, case_insensitive: bool)
    ensures
        !(components_below(a, b, case_insensitive) && components_below(b, a, case_insensitive)),
        !components_below(a, a, case_insensitive),
{
}

/// Equal paths contain each other, and equality is symmetric.
pub proof fn lemma_equal_paths_contain_each_other(a: Seq<PathComponent>, b: Seq<PathComponent>, case_insensitive: bool)
    requires
        same_components(a, b, case_insensitive),
    ensures
        same_components(b, a, case_insensitive),
        inside_or_equal(a, b, case_insensitive),
        inside_or_equal(b, a, case_insensitive),
{
    assert forall|i: int| 0 <= i < b.len() implies component_matches(#[trigger] b[i], a[i], case_insensitive) by {
        assert(component_matches(a[i], b[i], case_insensitive));
    }
    lemma_normalized_matches(a, b, case_insensitive);
    let na = normalized(a);
    let nb = normalized(b);
    assert forall|i: int| 0 <= i < nb.len() implies component_matches(#[trigger] nb[i], na[i], case_insensitive) by {
        assert(component_matches(na[i], nb[i], case_insensitive));
    }
}

/// Every path is equal to itself.
pub proof fn lemma_paths_equal_reflexive(a: Seq<PathComponent>, case_insensitive: bool)
    ensures
        same_components(a, a, case_insensitive),
{
}

/// Climbing out of a folder by `..` leaves it: below a root whose
/// normalised form ends in a named folder, `root/..` is not inside the
/// root (so neither is `/r/../x` inside `/r` for any other `x`).
pub proof fn lemma_parent_leaves_root(root: Seq<PathComponent>, case_insensitive: bool)
    requires
        normalized(root).len() > 0,
        normalized(root).last() is Normal,
    ensures
        normalized(root.push(PathComponent::ParentDir)) == normalized(root).drop_last(),
        !inside_or_equal(root, root.push(PathComponent::ParentDir), case_insensitive),
{
    assert(root.push(PathComponent::ParentDir).drop_last() =~= root);
}

} // verus!
