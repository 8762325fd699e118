use archpatch::{
    iter_patch_files, DirEntry, Hunk, HunkLine, LineRange, Patch, PatchError, PatchFile, ReadError,
};

fn patch_text(body: &str) -> String {
    format!("--- a/etc/f\n+++ b/etc/f\n{body}")
}

fn file(body: &str) -> PatchFile {
    PatchFile::try_read("p/etc-f.patch".to_string(), patch_text(body)).unwrap()
}

fn apply(body: &str, source: &str) -> Result<String, PatchError> {
    file(body).try_apply(source.to_string()).unwrap()
}

const CHANGE: &str = "@@ -2,3 +2,3 @@\n two\n-three\n+THREE\n four\n";

#[test]
fn a_patch_file_is_read() {
    let f = file(CHANGE);
    assert_eq!(f.path, "p/etc-f.patch");
    assert_eq!(f.of, "/etc/f");
    assert_eq!(f.patch, patch_text(CHANGE));
    let p = f.as_gitpatch();
    assert_eq!(p.hunks.len(), 1);
    assert_eq!(p.hunks[0].old_range, LineRange { start: 2, count: 3 });
    assert_eq!(p.hunks[0].new_range, LineRange { start: 2, count: 3 });
    assert!(matches!(&p.hunks[0].lines[0], HunkLine::Context(l) if l == "two"));
    assert!(matches!(&p.hunks[0].lines[1], HunkLine::Remove(l) if l == "three"));
    assert!(matches!(&p.hunks[0].lines[2], HunkLine::Add(l) if l == "THREE"));
    assert_eq!(p.hunks[0].lines.len(), 4);
}

#[test]
fn reading_is_direct_where_the_text_is_a_patch() {
    let f = PatchFile::read("x.patch".to_string(), patch_text(CHANGE));
    assert_eq!(f.of, "/etc/f");
}

#[test]
fn each_read_error() {
    let read = |text: &str| PatchFile::try_read("p".to_string(), text.to_string()).unwrap_err();
    assert_eq!(read("junk"), ReadError::Malformed);
    assert_eq!(read(&patch_text("@@ -1 +1 @@\n x\nrest\n")), ReadError::Malformed);
    let hunk = "@@ -1 +1 @@\n x\n";
    assert_eq!(read(&format!("--- etc/f\n+++ b/etc/f\n{hunk}")), ReadError::OldPath);
    assert_eq!(read(&format!("--- a/etc/f\n+++ etc/f\n{hunk}")), ReadError::NewPath);
    assert_eq!(read(&format!("--- a/etc/f\n+++ b/etc/g\n{hunk}")), ReadError::TargetsDiffer);
}

#[test]
fn equal_paths_may_be_written_differently() {
    let text = "--- a/etc//f\n+++ b/./etc/f/\n@@ -1 +1 @@\n x\n";
    let f = PatchFile::try_read("p".to_string(), text.to_string()).unwrap();
    assert_eq!(f.of, "/etc//f");
}

#[test]
fn a_hunk_replaces_its_lines() {
    assert_eq!(
        apply(CHANGE, "one\ntwo\nthree\nfour\nfive\n"),
        Ok("one\ntwo\nTHREE\nfour\nfive\n".to_string())
    );
}

#[test]
fn line_ends_become_newlines() {
    assert_eq!(
        apply(CHANGE, "one\r\ntwo\r\nthree\r\nfour\r\nfive"),
        Ok("one\ntwo\nTHREE\nfour\nfive\n".to_string())
    );
}

#[test]
fn an_applied_patch_is_found_applied() {
    let new = apply(CHANGE, "one\ntwo\nthree\nfour\nfive\n").unwrap();
    assert_eq!(apply(CHANGE, &new), Err(PatchError::AlreadyApplied));
}

#[test]
fn a_patch_for_another_text_is_outdated() {
    assert_eq!(apply(CHANGE, "one\ntwo\ndrei\nfour\nfive\n"), Err(PatchError::OutdatedSource));
    assert_eq!(apply(CHANGE, ""), Err(PatchError::OutdatedSource));
}

#[test]
fn hunks_that_disagree_make_the_patch_outdated() {
    let body = "@@ -1 +1 @@\n-a\n+A\n@@ -3 +3 @@\n-c\n+C\n";
    assert_eq!(apply(body, "a\nb\nc\n"), Ok("A\nb\nC\n".to_string()));
    assert_eq!(apply(body, "A\nb\nC\n"), Err(PatchError::AlreadyApplied));
    assert_eq!(apply(body, "A\nb\nc\n"), Err(PatchError::OutdatedSource));
    assert_eq!(apply(body, "A\nb\nx\n"), Err(PatchError::OutdatedSource));
}

#[test]
fn a_later_hunk_is_found_at_its_new_place() {
    let body = "@@ -1,2 +1,4 @@\n a\n+x\n+y\n b\n@@ -4,2 +6,1 @@\n-d\n e\n";
    let source = "a\nb\nc\nd\ne\nf\n";
    let new = apply(body, source).unwrap();
    assert_eq!(new, "a\nx\ny\nb\nc\ne\nf\n");
    assert_eq!(apply(body, &new), Err(PatchError::AlreadyApplied));
    // Six lines and one more: the hunks add two and remove one.
    assert_eq!(new.lines().count(), 7);
}

#[test]
fn the_last_newline_is_left_out_on_demand() {
    let body = "@@ -1,2 +1,2 @@\n a\n-b\n+B\n\\ No newline at end of file\n";
    assert_eq!(apply(body, "a\nb"), Ok("a\nB".to_string()));
    assert_eq!(apply(body, "a\nB"), Err(PatchError::AlreadyApplied));
}

#[test]
fn an_insertion_without_context_is_put_behind_its_line() {
    let body = "@@ -2,0 +3,1 @@\n+x\n";
    assert_eq!(apply(body, "a\nb\nc\n"), Ok("a\nb\nx\nc\n".to_string()));
    // Nothing has to be found, so the patch applies again.
    assert_eq!(apply(body, "a\nb\nx\nc\n"), Ok("a\nb\nx\nx\nc\n".to_string()));
    assert_eq!(apply("@@ -3,0 +4,1 @@\n+x\n", "a\nb\nc\n"), Ok("a\nb\nc\nx\n".to_string()));
}

#[test]
fn an_insertion_behind_line_zero_starts_the_text() {
    assert_eq!(apply("@@ -0,0 +1,1 @@\n+x\n", "a\n"), Ok("x\na\n".to_string()));
    assert_eq!(apply("@@ -0,0 +1,2 @@\n+x\n+y\n", ""), Ok("x\ny\n".to_string()));
}

#[test]
fn a_change_described_without_context_is_made() {
    let body = "@@ -0,0 +1 @@\n+top\n@@ -2 +3 @@\n-b\n+B\n@@ -4,0 +6,2 @@\n+x\n+y\n@@ -5 +7,0 @@\n-e\n";
    let old = "a\nb\nc\nd\ne\nf\n";
    assert_eq!(apply(body, old), Ok("top\na\nB\nc\nd\nx\ny\nf\n".to_string()));
}

#[test]
fn a_change_described_with_context_is_made() {
    let body = "@@ -1,5 +1,7 @@\n+top\n a\n-b\n+B\n c\n d\n+x\n e\n";
    assert_eq!(apply(body, "a\nb\nc\nd\ne\nf\n"), Ok("top\na\nB\nc\nd\nx\ne\nf\n".to_string()));
}

#[test]
fn the_reversed_patch_undoes_the_patch() {
    let there = "@@ -0,0 +1 @@\n+top\n@@ -2 +3 @@\n-b\n+B\n@@ -4,0 +6,2 @@\n+x\n+y\n@@ -5 +7,0 @@\n-e\n";
    let back = "@@ -1 +0,0 @@\n-top\n@@ -3 +2 @@\n-B\n+b\n@@ -6,2 +4,0 @@\n-x\n-y\n@@ -7,0 +5 @@\n+e\n";
    let old = "a\nb\nc\nd\ne\nf\n";
    assert_eq!(apply(back, &apply(there, old).unwrap()), Ok(old.to_string()));

    let there = "@@ -1,2 +1,3 @@\n a\n-b\n+B\n+c\n\\ No newline at end of file\n";
    let back = "@@ -1,3 +1,2 @@\n a\n-B\n-c\n+b\n\\ No newline at end of file\n";
    assert_eq!(apply(there, "a\nb"), Ok("a\nB\nc".to_string()));
    assert_eq!(apply(back, "a\nB\nc"), Ok("a\nb".to_string()));
}

#[test]
fn context_alone_changes_nothing() {
    assert_eq!(apply("@@ -1,2 +1,2 @@\n a\n b\n", "a\nb\nc\n"), Ok("a\nb\nc\n".to_string()));
}

#[test]
fn a_patch_without_hunks_keeps_the_lines() {
    let notice = "Binary files a/etc/f and b/etc/f differ\n".to_string();
    let f = PatchFile::try_read("p".to_string(), notice).unwrap();
    assert_eq!(f.try_apply("a\nb\n".to_string()), Some(Ok("a\nb".to_string())));
    assert_eq!(f.try_apply(String::new()), Some(Ok(String::new())));
}

#[test]
fn hunks_that_name_no_lines_are_not_applied() {
    let cannot = |body: &str, source: &str| {
        assert_eq!(file(body).try_apply(source.to_string()), None, "{body:?}");
    };
    // Line numbers start at one.
    cannot("@@ -0,1 +1,1 @@\n a\n", "a\n");
    // The hunks overlap.
    cannot("@@ -1,2 +1,2 @@\n a\n b\n@@ -2,1 +2,1 @@\n b\n", "a\nb\n");
    // A range miscounts its side.
    cannot("@@ -1,2 +1,1 @@\n a\n", "a\n");
    cannot("@@ -1,1 +1,2 @@\n a\n", "a\n");
    // The numbers add up to more than there are.
    cannot("@@ -18446744073709551615,1 +1,1 @@\n a\n", "a\n");
    // The new side starts at no line.
    cannot("@@ -1,1 +0,1 @@\n-a\n+A\n", "b\n");
    let mut broken = file(CHANGE);
    broken.patch = "junk".to_string();
    assert_eq!(broken.try_apply("a\n".to_string()), None);
}

#[test]
fn a_file_can_be_emptied() {
    assert_eq!(apply("@@ -1,1 +0,0 @@\n-a\n", "a\n"), Ok(String::new()));
    // No line of the new side is missing.
    assert_eq!(apply("@@ -1,1 +0,0 @@\n-a\n", "b\n"), Err(PatchError::AlreadyApplied));
    assert_eq!(apply("@@ -1,1 +0,0 @@\n-a\n", ""), Err(PatchError::AlreadyApplied));
}

#[test]
fn a_patch_applies_directly() {
    let patch = Patch {
        old_path: "a/f".to_string(),
        new_path: "b/f".to_string(),
        hunks: vec![Hunk {
            old_range: LineRange { start: 1, count: 1 },
            new_range: LineRange { start: 1, count: 2 },
            lines: vec![
                HunkLine::Context("a".to_string()),
                HunkLine::Add("b".to_string()),
            ],
        }],
        end_newline: true,
    };
    assert!(patch.fits_text("a\n"));
    assert_eq!(patch.apply("a\n"), Ok("a\nb\n".to_string()));
    assert_eq!(file(CHANGE).apply("1\ntwo\nthree\nfour\n".to_string()).unwrap(), "1\ntwo\nTHREE\nfour\n");
}

#[test]
fn patch_files_are_selected_from_a_directory() {
    let entry = |path: &str, is_file: bool, text: &str| DirEntry {
        path: path.to_string(),
        is_file,
        text: text.to_string(),
    };
    let good = patch_text(CHANGE);
    let entries = vec![
        entry("d/b.patch", true, &good),
        entry("d/readme", true, "junk"),
        entry("d/sub.patch", false, "junk"),
        entry("d/.patch", true, "junk"),
        entry("d/a.patch", true, &good),
    ];
    let files: Vec<PatchFile> =
        iter_patch_files(&entries).into_iter().map(|f| f.unwrap()).collect();
    let paths: Vec<&str> = files.iter().map(|f| f.path.as_str()).collect();
    assert_eq!(paths, ["d/b.patch", "d/a.patch"]);
    assert_eq!(files[0].of, "/etc/f");

    let bad = vec![
        entry("d/b.patch", true, &good),
        entry("d/c.patch", true, "--- etc/f\n+++ b/etc/f\n@@ -1 +1 @@\n x\n"),
        entry("d/d.patch", true, "junk"),
    ];
    let read = iter_patch_files(&bad);
    assert_eq!(read.len(), 3);
    assert_eq!(read[0].as_ref().unwrap().path, "d/b.patch");
    assert_eq!(read[1].as_ref().unwrap_err(), &ReadError::OldPath);
    assert_eq!(read[2].as_ref().unwrap_err(), &ReadError::Malformed);
}
