use archpatch::applying::{
    after_patching, after_reading, after_writing, exit_status, Application, ApplyStep,
};
use archpatch::archive::{
    extraction_args, member_name, original_text, package_archive, ArchiveError,
};
use archpatch::command::{
    comparison_args, diff_args, diff_text, first_owner, printed_difference, DEFAULT_PATCH_PATH,
};
use archpatch::listing::{
    backup_lines, describe_patch, outcome_state, pad, patch_state, target_is_duplicated, PatchState,
};
use archpatch::patch_file::selects_entry;
use archpatch::report::{
    after_applying, after_current, after_lookup, after_md5, after_original, find_patch,
    BackupCheck, BackupReport, BackupStatus,
};
use archpatch::{
    iter_backup_files, Args, BackupEntry, BackupFile, Commands, PackageBackups, PatchError,
    PatchFile,
};

const BODY: &str = "@@ -1 +1 @@\n-a\n+A\n";

fn patch(path: &str, of: &str) -> PatchFile {
    let text = format!("--- a{of}\n+++ b{of}\n{BODY}");
    PatchFile::try_read(path.to_string(), text).unwrap()
}

fn backup(package: &str, path: &str) -> BackupFile {
    BackupFile {
        package: package.to_string(),
        path: path.to_string(),
        original_md5: "0123".to_string(),
    }
}

#[test]
fn backup_files_of_all_packages() {
    let entry = |name: &str, hash: &str| BackupEntry {
        name: name.to_string(),
        hash: hash.to_string(),
    };
    let packages = vec![
        PackageBackups {
            name: "one".to_string(),
            backups: vec![entry("etc/a", "11"), entry("/etc/b", "22")],
        },
        PackageBackups { name: "none".to_string(), backups: vec![] },
        PackageBackups { name: "two".to_string(), backups: vec![entry("etc/c", "33")] },
    ];
    let files = iter_backup_files(&packages);
    let listed: Vec<(&str, &str, &str)> = files
        .iter()
        .map(|f| (f.package.as_str(), f.path.as_str(), f.original_md5.as_str()))
        .collect();
    assert_eq!(
        listed,
        [("one", "/etc/a", "11"), ("one", "/etc/b", "22"), ("two", "/etc/c", "33")]
    );
}

#[test]
fn the_archive_of_a_package() {
    assert_eq!(
        package_archive("pacman", "6.1.0-3", "x86_64"),
        "/var/cache/pacman/pkg/pacman-6.1.0-3-x86_64.pkg.tar.zst"
    );
    assert_eq!(member_name("/etc/pacman.conf"), "etc/pacman.conf");
    assert_eq!(
        extraction_args("pacman", "6.1.0-3", "x86_64", "/etc/pacman.conf"),
        [
            "-xOf",
            "/var/cache/pacman/pkg/pacman-6.1.0-3-x86_64.pkg.tar.zst",
            "etc/pacman.conf"
        ]
    );
}

#[test]
fn the_original_text() {
    assert_eq!(original_text(true, "h\u{e9}\n".as_bytes().to_vec()), Ok("h\u{e9}\n".to_string()));
    assert_eq!(original_text(true, vec![0xff]), Err(ArchiveError::NotUtf8));
    assert_eq!(original_text(true, vec![0xed, 0xa0, 0x80]), Err(ArchiveError::NotUtf8));
    assert_eq!(original_text(false, vec![b'x']), Err(ArchiveError::TarFailed));
}

#[test]
fn a_missing_file_is_reported() {
    let b = backup("p", "/etc/f");
    assert!(matches!(
        after_lookup(&b, false),
        BackupCheck::Settled(Some(BackupReport { status: BackupStatus::Missing, patch: None, .. }))
    ));
    assert!(matches!(after_lookup(&b, true), BackupCheck::NeedMd5));
}

#[test]
fn the_checksum_decides_whether_a_patch_is_looked_up() {
    let b = backup("p", "/etc/f");
    let patches = vec![patch("d/etc-g.patch", "/etc/g"), patch("d/etc-f.patch", "/etc/f")];
    assert!(matches!(
        after_md5(&b, &patches, None),
        BackupCheck::Settled(Some(BackupReport {
            status: BackupStatus::FailedComputeMd5,
            patch: None,
            ..
        }))
    ));
    assert!(matches!(
        after_md5(&b, &patches, Some("0123".to_string())),
        BackupCheck::Settled(None)
    ));
    assert!(matches!(
        after_md5(&b, &patches, Some("9".to_string())),
        BackupCheck::NeedOriginal(p) if p.path == "d/etc-f.patch"
    ));
    let other = backup("p", "/etc/h");
    assert!(matches!(
        after_md5(&other, &patches, Some("9".to_string())),
        BackupCheck::Settled(Some(BackupReport {
            status: BackupStatus::UnpatchedChanges,
            patch: None,
            ..
        }))
    ));
}

#[test]
fn the_first_patch_for_a_file_counts() {
    let patches = vec![
        patch("d/x.patch", "/etc/g"),
        patch("d/y.patch", "/etc//f"),
        patch("d/z.patch", "/etc/f"),
    ];
    assert_eq!(find_patch(&patches, "/etc/f").unwrap().path, "d/y.patch");
    assert!(find_patch(&patches, "/etc/h").is_none());
}

#[test]
fn the_original_is_patched_and_compared() {
    let b = backup("p", "/etc/f");
    let p = patch("d/etc-f.patch", "/etc/f");
    let check = after_original(&b, &p, "a\n".to_string()).unwrap();
    assert!(matches!(&check, BackupCheck::NeedCurrent(_, expected) if expected == "A\n"));
    assert!(matches!(
        after_original(&b, &p, "x\n".to_string()),
        Some(BackupCheck::Settled(Some(BackupReport {
            status: BackupStatus::PatchOutdated,
            patch: Some(_),
            ..
        })))
    ));
    // A package does not ship the patched text.
    assert!(after_original(&b, &p, "A\n".to_string()).is_none());
    assert!(after_current(&b, &p, "A\n".to_string(), "A\n".to_string()).is_none());
    let report = after_current(&b, &p, "A\n".to_string(), "B\n".to_string()).unwrap();
    assert_eq!(report.status, BackupStatus::UnpatchedChanges);
    assert!(report.patch.is_some());
    assert!(matches!(
        after_applying(&b, &p, Err(PatchError::OutdatedSource)),
        Some(BackupCheck::Settled(Some(BackupReport { status: BackupStatus::PatchOutdated, .. })))
    ));
    assert!(after_applying(&b, &p, Err(PatchError::AlreadyApplied)).is_none());
}

#[test]
fn backup_lines_are_aligned() {
    let short = backup("a", "/x");
    let long = backup("pkg", "/etc/f");
    let p = patch("d/etc-f.patch", "/etc/f");
    let report = |status, backup, patch| BackupReport { status, backup, patch };
    let lines = backup_lines(&vec![
        report(BackupStatus::Missing, &short, None),
        report(BackupStatus::UnpatchedChanges, &long, None),
        report(BackupStatus::UnpatchedChanges, &long, Some(&p)),
        report(BackupStatus::PatchOutdated, &long, Some(&p)),
        report(BackupStatus::FailedComputeMd5, &short, None),
    ]);
    // Three and six bytes, and five more.
    let width = 14;
    let expected = |b: &BackupFile, message: &str| {
        format!("  {}: {:w$} - {message}", b.package, b.path, w = width - b.package.len())
    };
    assert_eq!(
        lines,
        [
            expected(&short, "Missing"),
            expected(&long, "Unpatched changes"),
            expected(&long, "More changes that in patch d/etc-f.patch"),
            expected(&long, "Outdated patch at d/etc-f.patch"),
            expected(&short, "Failed to compute md5"),
        ]
    );
    assert_eq!(lines[0], "  a: /x            - Missing");
    assert_eq!(backup_lines(&vec![]), Vec::<String>::new());
}

#[test]
fn padding_counts_characters() {
    assert_eq!(pad("\u{e9}", 3), "\u{e9}  ");
    assert_eq!(pad("abc", 2), "abc");
}

#[test]
fn patch_states() {
    let p = patch("d/etc-f.patch", "/etc/f");
    assert_eq!(patch_state(&p, None), Some(PatchState::Unreadable));
    assert_eq!(patch_state(&p, Some("a\n".to_string())), Some(PatchState::NotApplied));
    assert_eq!(patch_state(&p, Some("A\n".to_string())), Some(PatchState::Applied));
    assert_eq!(patch_state(&p, Some("x\n".to_string())), Some(PatchState::Outdated));
    let mut broken = p;
    broken.patch = String::new();
    assert_eq!(patch_state(&broken, Some("a\n".to_string())), None);
    assert_eq!(outcome_state(&Ok(String::new())), PatchState::NotApplied);
}

#[test]
fn patch_lines() {
    let patches = vec![
        patch("d/etc-f.patch", "/etc/f"),
        patch("d/other.patch", "/etc/f"),
        patch("d/etc-g.patch", "/etc/g"),
    ];
    assert!(target_is_duplicated(&patches, 0));
    assert!(!target_is_duplicated(&patches, 2));
    assert_eq!(
        describe_patch(&patches, 0, PatchState::Applied),
        "  d/etc-f.patch    - DUPLICATED PATCH TARGET - Applied"
    );
    assert_eq!(
        describe_patch(&patches, 1, PatchState::Outdated),
        "  d/other.patch    - DUPLICATED PATCH TARGET - BADLY NAMED - Outdated !!"
    );
    assert_eq!(
        describe_patch(&patches, 2, PatchState::NotApplied),
        "  d/etc-g.patch    - Not applied !!"
    );
    assert_eq!(
        describe_patch(&patches, 2, PatchState::Unreadable),
        "  d/etc-g.patch    - Failed to read targetted file"
    );
}

#[test]
fn directory_entries() {
    assert!(selects_entry("d/x.patch", true));
    assert!(!selects_entry("d/x.patch", false));
    assert!(!selects_entry("d/x.diff", true));
}

#[test]
fn comparing_with_git() {
    assert_eq!(
        diff_args(false),
        ["diff", "--patch", "--unified", "--no-index", "--color=always"]
    );
    assert_eq!(
        diff_args(true),
        ["diff", "--patch", "--unified=0", "--no-index", "--color=always"]
    );
    assert_eq!(
        comparison_args(false, "/tmp/o", "/etc/f"),
        ["diff", "--patch", "--unified", "--no-index", "--color=always", "/tmp/o", "/etc/f"]
    );
    assert_eq!(
        comparison_args(true, "/tmp/o", "/etc/f"),
        ["diff", "--patch", "--unified=0", "--no-index", "--color=always", "/tmp/o", "/etc/f"]
    );
    assert_eq!(diff_text(true, "", "/tmp/o", "/etc/f"), "Target is unchanged");
    assert_eq!(
        diff_text(false, "--- a/tmp/o\n+++ b/etc/f\n", "/tmp/o", "/etc/f"),
        "--- a/etc/f\n+++ b/etc/f\n"
    );
    let output = b"--- a/tmp/o\n+++ b/etc/f\n+\xff\n".to_vec();
    assert_eq!(
        printed_difference(false, &output, "/tmp/o", "/etc/f"),
        "--- a/etc/f\n+++ b/etc/f\n+\u{fffd}\n"
    );
    assert_eq!(
        printed_difference(false, &"+\u{e9}/tmp/o\n".as_bytes().to_vec(), "/tmp/o", "/etc/f"),
        "+\u{e9}/etc/f\n"
    );
    assert_eq!(printed_difference(true, &output, "/tmp/o", "/etc/f"), "Target is unchanged");
    assert_eq!(first_owner(&vec![false, true, true]), Some(1));
    assert_eq!(first_owner(&vec![false]), None);
}

#[test]
fn applying_all_patches() {
    let settled = |step: ApplyStep| match step {
        ApplyStep::Settled(application) => application,
        ApplyStep::Write(text) => panic!("{text:?} would be written"),
    };
    let step = after_patching(Ok("new".to_string()));
    assert!(matches!(step, ApplyStep::Write(text) if text == "new"));
    let done = after_writing(None);
    let unwritten = after_writing(Some("denied".to_string()));
    let before = settled(after_patching(Err(PatchError::AlreadyApplied)));
    let outdated = settled(after_patching(Err(PatchError::OutdatedSource)));
    assert_eq!(done.text(), "OK");
    assert_eq!(unwritten.text(), "ERR (denied)");
    assert_eq!(before.text(), "OK (already applied)");
    assert_eq!(outdated.text(), "ERROR (patch is outdated)");
    assert!(!done.failed() && unwritten.failed() && !before.failed() && outdated.failed());
    assert_eq!(exit_status(&vec![done, before]), 0);
    assert_eq!(exit_status(&vec![Application::Written, outdated]), 1);
    assert_eq!(exit_status(&vec![unwritten]), 1);
    assert_eq!(exit_status(&vec![]), 0);
}

#[test]
fn a_file_is_written_only_where_its_patch_applies() {
    let p = patch("d/etc-f.patch", "/etc/f");
    let step = |source: &str| after_reading(&p, source.to_string()).unwrap();
    assert!(matches!(step("a\nb\n"), ApplyStep::Write(text) if text == "A\nb\n"));
    assert!(matches!(step("A\nb\n"), ApplyStep::Settled(Application::AlreadyApplied)));
    assert!(matches!(step("x\nb\n"), ApplyStep::Settled(Application::Outdated)));
    let mut broken = patch("d/etc-f.patch", "/etc/f");
    broken.patch = "junk".to_string();
    assert!(after_reading(&broken, "a\n".to_string()).is_none());
}

#[test]
fn a_second_run_writes_nothing() {
    let patches = [patch("d/etc-f.patch", "/etc/f"), patch("d/etc-g.patch", "/etc/g")];
    let mut files = ["a\nb\n".to_string(), "a\n".to_string()];
    let mut run = || -> (Vec<Application>, usize) {
        let mut writes: usize = 0;
        let mut applications = Vec::new();
        for (i, p) in patches.iter().enumerate() {
            applications.push(match after_reading(p, files[i].clone()).unwrap() {
                ApplyStep::Write(text) => {
                    files[i] = text;
                    writes += 1;
                    after_writing(None)
                }
                ApplyStep::Settled(application) => application,
            });
        }
        (applications, writes)
    };
    let (first, writes) = run();
    assert_eq!(writes, 2);
    assert_eq!(exit_status(&first), 0);
    let (second, writes) = run();
    assert_eq!(writes, 0);
    let texts: Vec<String> = second.iter().map(|a| a.text()).collect();
    assert_eq!(texts, ["OK (already applied)", "OK (already applied)"]);
    assert_eq!(exit_status(&second), 0);
    assert_eq!(files, ["A\nb\n", "A\n"]);
}

#[test]
fn a_difference_leads_to_the_current_text() {
    let output = b"--- a/tmp/o\n+++ b/etc/f\n@@ -1,0 +2 @@\n+x\n".to_vec();
    let printed = printed_difference(false, &output, "/tmp/o", "/etc/f");
    let f = PatchFile::try_read("d/etc-f.patch".to_string(), printed).unwrap();
    assert_eq!(f.of, "/etc/f");
    assert_eq!(f.apply("a\nb\n".to_string()), Ok("a\nx\nb\n".to_string()));
}

#[test]
fn what_the_caller_asks_for() {
    let args = Args {
        patch_path: DEFAULT_PATCH_PATH.to_string(),
        cmds: Commands::Diff { target: "/etc/f".to_string(), no_context: true },
    };
    assert_eq!(args.patch_path, "/usr/share/archpatch/patches");
    assert!(matches!(args.cmds, Commands::Diff { no_context: true, .. }));
}
