use archpatch::path::{
    file_name_of, has_patch_extension, join_path, paths_equal, starts_at_root, target_by_name,
    within,
};
use std::path::{Path, PathBuf};

#[test]
fn joining_is_that_of_the_standard_library() {
    for base in ["/", "/var/cache", "/x/", "", "rel"] {
        for p in ["", "etc/f", "/abs", "./x", "a//b"] {
            assert_eq!(
                join_path(base, p),
                PathBuf::from(base).join(p).to_str().unwrap(),
                "{base:?} {p:?}"
            );
        }
    }
}

#[test]
fn equality_is_that_of_the_standard_library() {
    let samples = [
        "", "/", ".", "./", "..", "a", "./a", "a/", "a/.", "a//b", "a/b", "a/./b", "/a/b", "//a/b",
        "/a/b/", "/./a/b", "a/../b", "../b", "b",
    ];
    for p in samples {
        for q in samples {
            assert_eq!(paths_equal(p, q), Path::new(p) == Path::new(q), "{p:?} {q:?}");
        }
    }
}

#[test]
fn stripping_is_that_of_the_standard_library() {
    for p in [
        "a", "a/", "a/etc/f", "a//etc/f", "a/./etc//f/", "a/etc/.", "b/etc/f", "/a/etc", "./a/x",
        "ab/x", "a/../x", "a/..", "",
    ] {
        let expected = Path::new(p).strip_prefix("a").ok().map(|r| r.to_str().unwrap());
        assert_eq!(within(p, "a").as_deref(), expected, "{p:?}");
    }
}

#[test]
fn file_names_are_those_of_the_standard_library() {
    for p in [
        "", "/", ".", "..", "a", "a/b.patch", "a/b.patch/", "a/.patch", "a/..patch", "a/x.y.patch",
        "a/..", "a/b/.", "./x.patch", "x.patchy", "patch",
    ] {
        let path = Path::new(p);
        let name = path.file_name().map(|n| n.to_str().unwrap());
        assert_eq!(file_name_of(p).as_deref(), name, "{p:?}");
        let is_patch = path.extension().map(|e| e == "patch").unwrap_or(false);
        assert_eq!(has_patch_extension(p), is_patch, "{p:?}");
    }
}

#[test]
fn roots() {
    assert!(starts_at_root("/x"));
    assert!(!starts_at_root("x/"));
    assert!(!starts_at_root(""));
}

#[test]
fn a_conventional_name_leads_back() {
    assert_eq!(
        target_by_name("/usr/share/archpatch/patches/etc-pacman.conf.patch").as_deref(),
        Some("/etc/pacman.conf")
    );
    assert_eq!(target_by_name("d/-etc-x.patch").as_deref(), Some("/etc/x"));
    assert_eq!(target_by_name("d/.patch").as_deref(), Some("/"));
    assert_eq!(target_by_name("d/etc-x"), None);
    assert_eq!(target_by_name(".."), None);
}
