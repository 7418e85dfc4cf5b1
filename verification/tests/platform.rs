use codecompass::platform::{path_is_inside_or_equal, path_is_strict_descendant, paths_equal, PathComponent};

fn comps(p: &str) -> Vec<PathComponent> {
    let mut v = Vec::new();
    if p.starts_with('/') {
        v.push(PathComponent::RootDir);
    }
    for part in p.split('/').filter(|s| !s.is_empty()) {
        v.push(match part {
            "." => PathComponent::CurDir,
            ".." => PathComponent::ParentDir,
            other => PathComponent::Normal(other.to_string()),
        });
    }
    v
}

#[test]
fn path_is_strict_descendant_detects_child() {
    let parent = comps("/home/user/docs");
    let child = comps("/home/user/docs/school");
    for case_insensitive in [false, true] {
        assert!(path_is_strict_descendant(&parent, &child, case_insensitive));
        assert!(!path_is_strict_descendant(&child, &parent, case_insensitive));
    }
}

#[test]
fn paths_equal_respects_case_on_case_insensitive_platforms() {
    let left = comps("/Users/Projects");
    let right = comps("/users/projects");
    assert!(paths_equal(&left, &right, true));
    assert!(!paths_equal(&left, &right, false));
}

#[test]
fn inside_or_equal_accepts_the_root_itself() {
    let root = comps("/a/b");
    assert!(path_is_inside_or_equal(&root, &comps("/a/b"), false));
    assert!(path_is_inside_or_equal(&root, &comps("/a/b/c"), false));
    assert!(!path_is_inside_or_equal(&root, &comps("/a"), false));
    assert!(!path_is_inside_or_equal(&root, &comps("/a/x/c"), false));
    assert!(!path_is_strict_descendant(&root, &comps("/a/b"), false));
}

#[test]
fn prefixes_compare_exactly() {
    let a = vec![PathComponent::Prefix("C:".to_string()), PathComponent::RootDir];
    let b = vec![PathComponent::Prefix("c:".to_string()), PathComponent::RootDir];
    assert!(!paths_equal(&a, &b, true));
}

#[test]
fn parent_components_are_resolved_before_comparing() {
    let root = comps("/r");
    assert!(!path_is_inside_or_equal(&root, &comps("/r/../x"), false));
    assert!(!path_is_inside_or_equal(&root, &comps("/r/a/../../x"), false));
    assert!(path_is_inside_or_equal(&root, &comps("/r/a/../b"), false));
    assert!(path_is_inside_or_equal(&root, &comps("/r/./a"), false));
    assert!(path_is_inside_or_equal(&root, &comps("/r/../r/a"), false));
    assert!(path_is_inside_or_equal(&comps("/r/a/.."), &comps("/r"), false));
    assert!(!path_is_inside_or_equal(&root, &comps("/.."), false));
    assert!(path_is_inside_or_equal(&comps("/"), &comps("/../x"), false));
}

#[test]
fn equality_and_descent_compare_components_as_given() {
    let root = comps("/r");
    assert!(path_is_strict_descendant(&root, &comps("/r/a/.."), false));
    assert!(path_is_strict_descendant(&root, &comps("/r/a/../b"), false));
    assert!(!paths_equal(&comps("/a/b/.."), &comps("/a"), false));
    assert!(paths_equal(&comps("/a/./b"), &comps("/a/./b"), false));
    assert!(!paths_equal(&comps("/a/./b"), &comps("/a/b"), false));
}

#[test]
fn relative_paths_keep_leading_parents() {
    let rel = |s: &str| -> Vec<PathComponent> {
        s.split('/')
            .filter(|p| !p.is_empty())
            .map(|p| match p {
                "." => PathComponent::CurDir,
                ".." => PathComponent::ParentDir,
                other => PathComponent::Normal(other.to_string()),
            })
            .collect()
    };
    assert!(!path_is_inside_or_equal(&rel("src"), &rel("../src"), false));
    assert!(!paths_equal(&rel("../a/b/.."), &rel("../a"), false));
}
