use archpatch::patch_file::parse_patch;
use archpatch::shape::is_well_shaped;

const HEADER: &str = "--- a/etc/f\n+++ b/etc/f\n";

fn with_header(body: &str) -> String {
    format!("{HEADER}{body}")
}

#[test]
fn patches_have_the_shape() {
    for body in [
        "@@ -1,2 +1,2 @@\n one\n-two\n+three\n",
        "@@ -1 +1 @@ hint\n-two\n+three\n",
        "@@ -1,2 +1,2 @@\r\n one\r\n-two\r\n+three\r\n",
        "@@ -1 +1 @@\n-two\n+three\n@@ -9 +9 @@\n x\n",
        "@@ -1 +1 @@\n-two\n+three\n\\ No newline at end of file\n",
        "@@ -1 +1 @@\n-two\n+three\n\\ No newline at end of file",
        "@@ -1 +1 @@\n-two\n+three\n\\ No newline at end of file\r\n\n\r\n",
        "@@ -1 +1 @@\n-two\n+three\n\n\n",
        "@@ -1 +1 @@\n---x\n+++x\n",
        "@@ -18446744073709551615 +000000000000000000000001 @@\n x\n",
    ] {
        let text = with_header(body);
        assert!(gitpatch::Patch::from_single(&text).is_ok(), "{text:?}");
        assert!(is_well_shaped(&text), "{text:?}");
        assert!(parse_patch(&text).is_some(), "{text:?}");
    }
}

#[test]
fn texts_that_are_understood_in_part_are_refused() {
    for body in [
        "@@ -1 +1 @@\n-two\n+three",
        "@@ -1 +1 @@\n-two\n+three\nrest\n",
        "@@ -1 +1 @@\n-two\n\\ No newline at end of file\n+three\n",
        "@@ -1 +1 @@\n-two\n+three\n\n+four\n",
        "@@ -1 +1 @@\n-two\n+three\n\n\\ No newline at end of file\n",
        "@@ -1 +1 @@\n-two\n+th\rree\n",
        "@@ -1 +1 @@\n x\n--- a;\n+++ a;\n",
        "@@ -1 +1 @@\n x\n@@ -2 +2 @@\n",
        "@@ -1 +1 @@\n x\n@@ -2, +2 @@\n y\n",
        "@@ -1 +1 @@\n x\n@@ -2 +2 @\n y\n",
        "@@ -18446744073709551616 +1 @@\n x\n",
        "@@ -1,99999999999999999999999 +1 @@\n x\n",
        "@@ -1 +1 @@\n-two\n+three\n\r",
    ] {
        let text = with_header(body);
        assert!(!is_well_shaped(&text), "{text:?}");
        assert!(parse_patch(&text).is_none(), "{text:?}");
    }
}

#[test]
fn texts_without_hunks_are_refused() {
    for text in [
        "",
        "nothing\n",
        "--- a/f\n+++ b/f\n",
        "--- a/f\n+++ b/f\nrest\n",
        "--- a/f\n+++ b/f\n@@ -1 +1 @@\n",
        "--- a/f\n",
    ] {
        assert!(gitpatch::Patch::from_single(text).is_err(), "{text:?}");
        assert!(parse_patch(text).is_none(), "{text:?}");
    }
}

#[test]
fn bad_header_lines_are_an_ordinary_error() {
    let text = "--- a/f\nxxx b/f\n@@ -1 +1 @@\n x\n";
    assert!(is_well_shaped(text));
    assert!(gitpatch::Patch::from_single(text).is_err());
    assert!(parse_patch(text).is_none());
}

#[test]
fn a_preamble_is_passed_over() {
    let text = "diff --git a/etc/f b/etc/f\nindex 1..2 100644\n--- a/etc/f\n+++ b/etc/f\n@@ -1 +1 @@\n-a\n+b\n";
    assert!(is_well_shaped(text));
    let patch = parse_patch(text).unwrap();
    assert_eq!(patch.old_path, "a/etc/f");
    assert_eq!(patch.new_path, "b/etc/f");
    assert!(patch.end_newline);
    assert_eq!(patch.hunks.len(), 1);
}

#[test]
fn binary_notices() {
    let notice = "Binary files a/f and b/f differ\n";
    assert!(gitpatch::Patch::from_single(notice).is_ok());
    let patch = parse_patch(notice).unwrap();
    assert_eq!(patch.old_path, "a/f");
    assert_eq!(patch.new_path, "b/f");
    assert_eq!(patch.hunks.len(), 0);
    assert!(!patch.end_newline);
    for text in [
        "Binary files a/f and b/f differ\u{3000} \r\n",
        "Binary files x\n--- a/f\n+++ b/f\n@@ -1 +1 @@\n x\n",
        "Binary files a differ\n--- a/f\n+++ b/f\n@@ -1 +1 @@\n x\n",
    ] {
        assert!(gitpatch::Patch::from_single(text).is_ok(), "{text:?}");
        assert!(is_well_shaped(text), "{text:?}");
    }
    for text in [
        "Binary files a/f and b/f differ\nrest\n",
        "Binary files a/f and b/f differ\n--- a/f\n+++ b/f\n@@ -1 +1 @@\n x\n",
    ] {
        assert!(!is_well_shaped(text), "{text:?}");
    }
}

#[test]
fn renames() {
    let rename = "diff --git a/x b/y\nsimilarity index 100%\nrename from a/x\nrename to b/x\n";
    assert!(gitpatch::Patch::from_single(rename).is_ok());
    let patch = parse_patch(rename).unwrap();
    assert_eq!(patch.old_path, "a/x");
    assert_eq!(patch.new_path, "b/x");
    assert!(!is_well_shaped(&format!("{rename}rest")));
}

#[test]
fn quoted_paths_are_unquoted() {
    let text = "--- \"a/etc/my file\"\n+++ \"b/etc/my file\"\n@@ -1 +1 @@\n x\n";
    assert_eq!(parse_patch(text).unwrap().old_path, "a/etc/my file");
}
