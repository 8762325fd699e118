//! The report on backup files and patches.
use vstd::prelude::*;

use crate::backup::BackupFile;
#[allow(unused_imports)]
use crate::patch::outcome_view;
use crate::patch::PatchError;
use crate::patch_file::PatchFile;
#[allow(unused_imports)]
use crate::patch_file::patch_in;
use crate::path::paths_equal;
#[allow(unused_imports)]
use crate::path::same_path;
#[allow(unused_imports)]
use crate::text::text_lines;

verus! {

/// What is wrong with a backup file.
#[derive(Debug, Clone, Copy, PartialEq, Eq, Structural)]
pub enum BackupStatus {
    /// There is no such file.
    Missing,
    /// The file has changes that no patch makes.
    UnpatchedChanges,
    /// The patch for the file does not apply to the file that the package ships.
    PatchOutdated,
    /// The checksum of the file cannot be computed.
    FailedComputeMd5,
}

/// An entry of the report: a backup file, what is wrong with it, and the patch for it, as far as
/// one plays a part.
#[derive(Debug, Clone, Copy)]
pub struct BackupReport<'a> {
    pub status: BackupStatus,
    pub backup: &'a BackupFile,
    pub patch: Option<&'a PatchFile>,
}

impl<'a> BackupReport<'a> {
    /// An outdated patch is a patch.
    pub open spec fn wf(self) -> bool {
        self.status == BackupStatus::PatchOutdated ==> self.patch is Some
    }
}

/// How far the check of a backup file has come.
#[derive(Debug)]
pub enum BackupCheck<'a> {
    /// The checksum of the file is needed.
    NeedMd5,
    /// The text that the package ships is needed, to apply the patch to it.
    NeedOriginal(&'a PatchFile),
    /// The present text of the file is needed, to compare it with the one that the patch makes.
    NeedCurrent(&'a PatchFile, String),
    /// The check is over; there may be something to report.
    Settled(Option<BackupReport<'a>>),
}

/// The first patch for the file at `path`.
pub open spec fn patch_for(patches: Seq<PatchFile>, path: Seq<char>) -> Option<PatchFile>
    decreases patches.len(),
{
    if patches.len() == 0 {
        None
    } else if same_path(patches[0].of@, path) {
        Some(patches[0])
    } else {
        patch_for(patches.skip(1), path)
    }
}

/// The first patch for the file at `path`.
pub fn find_patch<'a>(patches: &'a Vec<PatchFile>, path: &str) -> (r: Option<&'a PatchFile>)
    ensures
        match r {
            Some(p) => patch_for(patches@, path@) == Some(*p),
            None => patch_for(patches@, path@) is None,
        },
{
    let mut i: usize = 0;
    assert(patches@.skip(0) =~= patches@);
    while i < patches.len()
        invariant
            i <= patches@.len(),
            patch_for(patches@.skip(i as int), path@) == patch_for(patches@, path@),
        decreases patches.len() - i,
    {
        assert(patches@.skip(i as int)[0] == patches@[i as int]);
        if paths_equal(patches[i].of.as_str(), path) {
            return Some(&patches[i]);
        }
        assert(patches@.skip(i as int).skip(1) =~= patches@.skip(i + 1));
        i = i + 1;
    }
    None
}

/// The check after looking whether the file is there.
pub open spec fn lookup_step<'a>(backup: &'a BackupFile, exists: bool) -> BackupCheck<'a> {
    if exists {
        BackupCheck::NeedMd5
    } else {
        BackupCheck::Settled(
            Some(BackupReport { status: BackupStatus::Missing, backup, patch: None }),
        )
    }
}

/// The check after computing the checksum, which is `None` where that failed: a file with the
/// checksum of the one that the package ships is unchanged; for a changed file there is a patch
/// or there is none.
pub open spec fn md5_step<'a>(
    backup: &'a BackupFile,
    patches: Seq<PatchFile>,
    md5: Option<Seq<char>>,
) -> BackupCheck<'a> {
    match md5 {
        None => BackupCheck::Settled(
            Some(BackupReport { status: BackupStatus::FailedComputeMd5, backup, patch: None }),
        ),
        Some(sum) => if sum == backup.original_md5@ {
            BackupCheck::Settled(None)
        } else {
            match patch_for(patches, backup.path@) {
                None => BackupCheck::Settled(
                    Some(
                        BackupReport {
                            status: BackupStatus::UnpatchedChanges,
                            backup,
                            patch: None,
                        },
                    ),
                ),
                Some(p) => BackupCheck::NeedOriginal(&p),
            }
        },
    }
}

/// What comes of applying the patch to the text that the package ships: the text that the file
/// should have, or a report of the outdated patch. A text that is patched already has no place in
/// a package, and nothing comes of it.
pub open spec fn applying_step<'a>(
    backup: &'a BackupFile,
    patch: &'a PatchFile,
    outcome: Result<Seq<char>, PatchError>,
) -> Option<Result<Seq<char>, BackupReport<'a>>> {
    match outcome {
        Ok(expected) => Some(Ok(expected)),
        Err(PatchError::OutdatedSource) => Some(
            Err(BackupReport { status: BackupStatus::PatchOutdated, backup, patch: Some(patch) }),
        ),
        Err(PatchError::AlreadyApplied) => None,
    }
}

/// What is to be reported of a file with the given text that should have another.
pub open spec fn current_step<'a>(
    backup: &'a BackupFile,
    patch: &'a PatchFile,
    expected: Seq<char>,
    current: Seq<char>,
) -> Option<BackupReport<'a>> {
    if expected == current {
        None
    } else {
        Some(
            BackupReport { status: BackupStatus::UnpatchedChanges, backup, patch: Some(patch) },
        )
    }
}

/// The check goes on as the step says: with the text that the file should have, or with a report;
/// or it does not go on.
pub open spec fn goes_on<'a>(
    check: Option<BackupCheck<'a>>,
    patch: &'a PatchFile,
    step: Option<Result<Seq<char>, BackupReport<'a>>>,
) -> bool {
    match step {
        Some(Ok(text)) => check matches Some(BackupCheck::NeedCurrent(p, expected)) && p == patch
            && expected@ == text,
        Some(Err(report)) => check == Some(BackupCheck::Settled(Some(report))),
        None => check is None,
    }
}

/// An optional string taken by its contents.
pub open spec fn option_view(s: Option<String>) -> Option<Seq<char>> {
    match s {
        Some(t) => Some(t@),
        None => None,
    }
}

/// The check after looking whether the file is there.
pub fn after_lookup<'a>(backup: &'a BackupFile, exists: bool) -> (r: BackupCheck<'a>)
    ensures
        r == lookup_step(backup, exists),
{
    if exists {
        BackupCheck::NeedMd5
    } else {
        BackupCheck::Settled(
            Some(BackupReport { status: BackupStatus::Missing, backup, patch: None }),
        )
    }
}

/// The check after computing the checksum, which is `None` where that failed.
pub fn after_md5<'a>(
    backup: &'a BackupFile,
    patches: &'a Vec<PatchFile>,
    md5: Option<String>,
) -> (r: BackupCheck<'a>)
    ensures
        r == md5_step(backup, patches@, option_view(md5)),
{
    let sum = match md5 {
        None => {
            return BackupCheck::Settled(
                Some(BackupReport { status: BackupStatus::FailedComputeMd5, backup, patch: None }),
            );
        },
        Some(sum) => sum,
    };
    if sum == backup.original_md5 {
        return BackupCheck::Settled(None);
    }
    match find_patch(patches, backup.path.as_str()) {
        None => BackupCheck::Settled(
            Some(BackupReport { status: BackupStatus::UnpatchedChanges, backup, patch: None }),
        ),
        Some(p) => BackupCheck::NeedOriginal(p),
    }
}

/// The check after applying the patch to the text that the package ships; `None` where that text
/// is patched already.
pub fn after_applying<'a>(
    backup: &'a BackupFile,
    patch: &'a PatchFile,
    outcome: Result<String, PatchError>,
) -> (r: Option<BackupCheck<'a>>)
    ensures
        goes_on(r, patch, applying_step(backup, patch, outcome_view(outcome))),
{
    match outcome {
        Ok(expected) => Some(BackupCheck::NeedCurrent(patch, expected)),
        Err(PatchError::OutdatedSource) => Some(
            BackupCheck::Settled(
                Some(
                    BackupReport {
                        status: BackupStatus::PatchOutdated,
                        backup,
                        patch: Some(patch),
                    },
                ),
            ),
        ),
        Err(PatchError::AlreadyApplied) => None,
    }
}

/// The patch can be applied to the text that the package ships, and the text is not patched
/// already.
pub open spec fn original_is_of_use(patch: PatchFile, original: Seq<char>) -> bool {
    &&& patch.wf()
    &&& patch_in(patch.patch@).fits(text_lines(original))
    &&& patch_in(patch.patch@).outcome(text_lines(original)) != Err::<Seq<char>, PatchError>(
        PatchError::AlreadyApplied,
    )
}

/// The check after reading the text that the package ships; `None` where the patch cannot be
/// applied to that text or the text is patched already.
pub fn after_original<'a>(
    backup: &'a BackupFile,
    patch: &'a PatchFile,
    original: String,
) -> (r: Option<BackupCheck<'a>>)
    ensures
        r is Some <==> original_is_of_use(*patch, original@),
        r is Some ==> goes_on(
            r,
            patch,
            applying_step(backup, patch, patch_in(patch.patch@).outcome(text_lines(original@))),
        ),
{
    match patch.try_apply(original) {
        Some(outcome) => after_applying(backup, patch, outcome),
        None => None,
    }
}

/// What is to be reported after comparing the present text with the one that the patch makes.
pub fn after_current<'a>(
    backup: &'a BackupFile,
    patch: &'a PatchFile,
    expected: String,
    current: String,
) -> (r: Option<BackupReport<'a>>)
    ensures
        r == current_step(backup, patch, expected@, current@),
{
    if expected == current {
        None
    } else {
        Some(
            BackupReport { status: BackupStatus::UnpatchedChanges, backup, patch: Some(patch) },
        )
    }
}

/// What the check of a backup file comes to when each step finds out the given facts: a report
/// or none. There is no verdict on a changed file whose patch is of no use on the text that the
/// package ships.
pub open spec fn verdict<'a>(
    backup: &'a BackupFile,
    patches: Seq<PatchFile>,
    exists: bool,
    md5: Option<Seq<char>>,
    original: Seq<char>,
    current: Seq<char>,
) -> Option<Option<BackupReport<'a>>> {
    match lookup_step(backup, exists) {
        BackupCheck::Settled(report) => Some(report),
        _ => match md5_step(backup, patches, md5) {
            BackupCheck::Settled(report) => Some(report),
            BackupCheck::NeedOriginal(p) => if original_is_of_use(*p, original) {
                match applying_step(
                    backup,
                    p,
                    patch_in(p.patch@).outcome(text_lines(original)),
                ) {
                    Some(Ok(expected)) => Some(current_step(backup, p, expected, current)),
                    Some(Err(report)) => Some(Some(report)),
                    None => None,
                }
            } else {
                None
            },
            _ => None,
        },
    }
}

/// A backup file goes without a report exactly when it is there and its checksum can be
/// computed, and it either is the file that the package ships or is what the patch for it makes
/// of that file. Every report names the backup file, and an outdated patch is named with it.
/// There is no verdict exactly when the file is there and changed, and the patch for it cannot be
/// held against the text that the package ships or finds itself applied to that text.
pub proof fn law_silence_means_explained(
    backup: &BackupFile,
    patches: Seq<PatchFile>,
    exists: bool,
    md5: Option<Seq<char>>,
    original: Seq<char>,
    current: Seq<char>,
)
    ensures
        verdict(backup, patches, exists, md5, original, current) == Some(
            None::<BackupReport>,
        ) <==> {
            &&& exists
            &&& md5 is Some
            &&& md5->0 == backup.original_md5@ || {
                let p = patch_for(patches, backup.path@);
                &&& p is Some
                &&& original_is_of_use(p->0, original)
                &&& patch_in(p->0.patch@).outcome(text_lines(original)) == Ok::<
                    Seq<char>,
                    PatchError,
                >(current)
            }
        },
        verdict(backup, patches, exists, md5, original, current) matches Some(Some(report))
            ==> report.wf() && report.backup == backup,
        verdict(backup, patches, exists, md5, original, current) is None <==> {
            &&& exists
            &&& md5 is Some
            &&& md5->0 != backup.original_md5@
            &&& patch_for(patches, backup.path@) is Some
            &&& !original_is_of_use(patch_for(patches, backup.path@)->0, original)
        },
{
}

/// The patch for a file is one of the patches, is for that file, and no patch before it is.
pub proof fn law_first_patch_counts(patches: Seq<PatchFile>, path: Seq<char>)
    ensures
        match patch_for(patches, path) {
            Some(p) => exists|i: int|
                0 <= i < patches.len() && patches[i] == p && same_path(
                    (#[trigger] patches[i]).of@,
                    path,
                ) && forall|j: int| 0 <= j < i ==> !same_path((#[trigger] patches[j]).of@, path),
            None => forall|j: int|
                0 <= j < patches.len() ==> !same_path((#[trigger] patches[j]).of@, path),
        },
    decreases patches.len(),
{
    if patches.len() > 0 && !same_path(patches[0].of@, path) {
        let rest = patches.skip(1);
        law_first_patch_counts(rest, path);
        match patch_for(rest, path) {
            Some(p) => {
                let i = choose|i: int|
                    0 <= i < rest.len() && rest[i] == p && same_path((#[trigger] rest[i]).of@, path)
                        && forall|j: int|
                        0 <= j < i ==> !same_path((#[trigger] rest[j]).of@, path);
                assert(patches[i + 1] == p);
                assert forall|j: int| 0 <= j < i + 1 implies !same_path(
                    (#[trigger] patches[j]).of@,
                    path,
                ) by {
                    if j > 0 {
                        assert(patches[j] == rest[j - 1]);
                    }
                }
            },
            None => {
                assert forall|j: int| 0 <= j < patches.len() implies !same_path(
                    (#[trigger] patches[j]).of@,
                    path,
                ) by {
                    if j > 0 {
                        assert(patches[j] == rest[j - 1]);
                    }
                }
            },
        }
    }
}

/// The index of the first patch for the file at `path`.
pub open spec fn is_first_for(patches: Seq<PatchFile>, path: Seq<char>, i: int) -> bool {
    &&& 0 <= i < patches.len()
    &&& same_path(patches[i].of@, path)
    &&& forall|j: int| 0 <= j < i ==> !same_path((#[trigger] patches[j]).of@, path)
}

/// The check step by step: a file that is not there is missing, and of one that is, the checksum
/// is needed. A checksum that cannot be computed is reported. A file with the checksum of the one
/// that the package ships is not; any other has unpatched changes where no patch is for it, and
/// else the original is needed for the first patch that is.
pub proof fn law_first_steps(
    backup: &BackupFile,
    patches: Seq<PatchFile>,
    md5: Option<Seq<char>>,
    i: int,
)
    ensures
        lookup_step(backup, true) == BackupCheck::NeedMd5,
        lookup_step(backup, false) == BackupCheck::Settled(
            Some(BackupReport { status: BackupStatus::Missing, backup, patch: None }),
        ),
        md5 is None ==> md5_step(backup, patches, md5) == BackupCheck::Settled(
            Some(BackupReport { status: BackupStatus::FailedComputeMd5, backup, patch: None }),
        ),
        md5 is Some && md5->0 == backup.original_md5@ ==> md5_step(backup, patches, md5)
            == BackupCheck::Settled(None),
        md5 is Some && md5->0 != backup.original_md5@ && (forall|j: int|
            0 <= j < patches.len() ==> !same_path((#[trigger] patches[j]).of@, backup.path@))
            ==> md5_step(backup, patches, md5) == BackupCheck::Settled(
            Some(BackupReport { status: BackupStatus::UnpatchedChanges, backup, patch: None }),
        ),
        md5 is Some && md5->0 != backup.original_md5@ && is_first_for(patches, backup.path@, i)
            ==> md5_step(backup, patches, md5) == BackupCheck::NeedOriginal(&patches[i]),
{
    law_first_patch_counts(patches, backup.path@);
    if is_first_for(patches, backup.path@, i) {
        lemma_first_patch_is_found(patches, backup.path@, i);
    }
}

/// The first patch for a file is found.
proof fn lemma_first_patch_is_found(patches: Seq<PatchFile>, path: Seq<char>, i: int)
    requires
        is_first_for(patches, path, i),
    ensures
        patch_for(patches, path) == Some(patches[i]),
    decreases i,
{
    if i > 0 {
        let rest = patches.skip(1);
        assert(!same_path(patches[0].of@, path));
        assert forall|j: int| 0 <= j < i - 1 implies !same_path(
            (#[trigger] rest[j]).of@,
            path,
        ) by {
            assert(rest[j] == patches[j + 1]);
        }
        assert(rest[i - 1] == patches[i]);
        lemma_first_patch_is_found(rest, path, i - 1);
    }
}

/// The last steps of the check: a patch that does not fit what the package ships, and only such a
/// one, is reported as outdated; one that does makes the text that the file should have, and a
/// file with any other text, longer or shorter, has unpatched changes, of which the patch makes a
/// part; and nothing comes of a text that is patched already.
pub proof fn law_last_steps<'a>(
    backup: &'a BackupFile,
    patch: &'a PatchFile,
    outcome: Result<Seq<char>, PatchError>,
    current: Seq<char>,
    check: Option<BackupCheck<'a>>,
)
    requires
        goes_on(check, patch, applying_step(backup, patch, outcome)),
    ensures
        match outcome {
            Ok(expected) => {
                &&& check matches Some(BackupCheck::NeedCurrent(p, text)) && p == patch && text@
                    == expected
                &&& expected == current ==> current_step(backup, patch, expected, current) is None
                &&& expected != current ==> current_step(backup, patch, expected, current) == Some(
                    BackupReport {
                        status: BackupStatus::UnpatchedChanges,
                        backup,
                        patch: Some(patch),
                    },
                )
            },
            Err(PatchError::OutdatedSource) => check == Some(
                BackupCheck::Settled(
                    Some(
                        BackupReport {
                            status: BackupStatus::PatchOutdated,
                            backup,
                            patch: Some(patch),
                        },
                    ),
                ),
            ),
            Err(PatchError::AlreadyApplied) => check is None,
        },
{
}

/// The text that the package ships is of use if and only if the patch file holds a patch, which
/// can be held against that text and does not find itself applied to it.
pub proof fn law_useful_originals(patch: PatchFile, original: Seq<char>)
    ensures
        original_is_of_use(patch, original) <==> {
            let p = patch_in(patch.patch@);
            let src = text_lines(original);
            &&& patch.wf()
            &&& p.fits(src)
            &&& p.outcome(src) is Ok || p.outcome(src) == Err::<Seq<char>, PatchError>(
                PatchError::OutdatedSource,
            )
        },
{
}

/// The status of a verdict tells what is wrong: a file is missing if and only if it is not there;
/// its checksum failed if and only if it is there and has none; its patch is outdated if and only
/// if the file is there and changed, and applying the patch for it to the text that the package
/// ships gives `OutdatedSource`; and it has unpatched changes if and only if it is there and
/// changed, and either no patch is for it, which is then not named, or the patch for it, which
/// is named, makes another text of the original than the current one.
pub proof fn law_status_tells_what_is_wrong(
    backup: &BackupFile,
    patches: Seq<PatchFile>,
    exists: bool,
    md5: Option<Seq<char>>,
    original: Seq<char>,
    current: Seq<char>,
)
    ensures
        ({
            let found = verdict(backup, patches, exists, md5, original, current);
            let changed = exists && md5 is Some && md5->0 != backup.original_md5@;
            let patch = patch_for(patches, backup.path@);
            let outcome = patch_in(patch->0.patch@).outcome(text_lines(original));
            let held = patch is Some && patch->0.wf() && patch_in(patch->0.patch@).fits(
                text_lines(original),
            );
            let is = |status: BackupStatus, named: Option<PatchFile>|
                found matches Some(Some(report)) && report.status == status && match named {
                    Some(p) => report.patch == Some(&p),
                    None => report.patch is None,
                };
            let has = |status: BackupStatus|
                found matches Some(Some(report)) && report.status == status;
            &&& has(BackupStatus::Missing) <==> !exists
            &&& has(BackupStatus::Missing) ==> is(BackupStatus::Missing, None)
            &&& has(BackupStatus::FailedComputeMd5) <==> exists && md5 is None
            &&& has(BackupStatus::FailedComputeMd5) ==> is(BackupStatus::FailedComputeMd5, None)
            &&& has(BackupStatus::PatchOutdated) <==> changed && held && outcome == Err::<
                Seq<char>,
                PatchError,
            >(PatchError::OutdatedSource)
            &&& has(BackupStatus::PatchOutdated) ==> is(BackupStatus::PatchOutdated, patch)
            &&& is(BackupStatus::UnpatchedChanges, None) <==> changed && patch is None
            &&& has(BackupStatus::UnpatchedChanges) && patch is Some <==> changed && held
                && outcome is Ok && outcome->Ok_0 != current
            &&& has(BackupStatus::UnpatchedChanges) ==> is(BackupStatus::UnpatchedChanges, patch)
        }),
{
}

/// An optional string taken by its contents.
pub proof fn law_view_of_an_optional_string(text: String)
    ensures
        option_view(Some(text)) == Some(text@),
        option_view(None) is None,
{
}

/// A report is complete if and only if an outdated patch is named in it.
pub proof fn law_complete_reports(report: BackupReport)
    ensures
        report.wf() <==> (report.status is PatchOutdated ==> report.patch is Some),
{
}

} // verus!
