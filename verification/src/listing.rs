//! The lines in which the report is printed.
use vstd::prelude::*;
#[allow(unused_imports)]
use vstd::utf8::encode_utf8;

#[allow(unused_imports)]
use crate::patch::outcome_view;
use crate::patch::PatchError;
use crate::patch_file::PatchFile;
#[allow(unused_imports)]
use crate::patch_file::patch_in;
use crate::path::{paths_equal, target_by_name};
#[allow(unused_imports)]
use crate::path::{conventional_target, names_a_target, same_path};
use crate::report::{BackupReport, BackupStatus};
#[allow(unused_imports)]
use crate::text::{text_lines, texts};

verus! {

/// The length of a text in bytes.
pub open spec fn byte_length(s: Seq<char>) -> nat {
    encode_utf8(s).len()
}

/// The text, followed by as many spaces as it falls short of `width` characters.
pub open spec fn padded(s: Seq<char>, width: int) -> Seq<char> {
    if s.len() < width {
        s + Seq::new((width - s.len()) as nat, |i: int| ' ')
    } else {
        s
    }
}

/// The length of a text in bytes.
fn length_in_bytes(s: &str) -> (r: usize)
    ensures
        r == byte_length(s@),
{
    s.as_bytes().len()
}

/// The text, followed by as many spaces as it falls short of `width` characters.
pub fn pad(s: &str, width: usize) -> (r: String)
    ensures
        r@ == padded(s@, width as int),
{
    let mut n: usize = s.unicode_len();
    let mut out = s.to_owned();
    assert(out@ =~= s@ + Seq::new(0, |i: int| ' '));
    while n < width
        invariant
            s@.len() <= n,
            n <= width || n == s@.len(),
            out@ == s@ + Seq::new((n - s@.len()) as nat, |i: int| ' '),
        decreases width - n,
    {
        out.push(' ');
        n = n + 1;
        assert(out@ =~= s@ + Seq::new((n - s@.len()) as nat, |i: int| ' '));
    }
    assert(out@ =~= padded(s@, width as int));
    out
}

/// What the report says of a backup file.
pub open spec fn backup_message(report: BackupReport) -> Seq<char> {
    match (report.status, report.patch) {
        (BackupStatus::Missing, _) => "Missing"@,
        (BackupStatus::UnpatchedChanges, None) => "Unpatched changes"@,
        (BackupStatus::UnpatchedChanges, Some(p)) => "More changes that in patch "@ + p.path@,
        (BackupStatus::PatchOutdated, Some(p)) => "Outdated patch at "@ + p.path@,
        (BackupStatus::PatchOutdated, None) => Seq::empty(),
        (BackupStatus::FailedComputeMd5, _) => "Failed to compute md5"@,
    }
}

/// The bytes that the package and the path of a backup file take.
pub open spec fn backup_width(report: BackupReport) -> nat {
    byte_length(report.backup.package@) + byte_length(report.backup.path@)
}

/// The most bytes that the package and the path of a reported backup file take.
pub open spec fn widest_backup(reports: Seq<BackupReport>) -> nat
    decreases reports.len(),
{
    if reports.len() == 0 {
        0
    } else {
        let before = widest_backup(reports.drop_last());
        let last = backup_width(reports.last());
        if before < last {
            last
        } else {
            before
        }
    }
}

/// The column to which package and path of the reported backup files are padded.
pub open spec fn backup_column(reports: Seq<BackupReport>) -> int {
    widest_backup(reports) as int + 5
}

/// The line for a backup file: package and path, padded to a common column, and what is wrong.
pub open spec fn backup_line(report: BackupReport, column: int) -> Seq<char> {
    "  "@ + report.backup.package@ + ": "@ + padded(
        report.backup.path@,
        column - byte_length(report.backup.package@),
    ) + " - "@ + backup_message(report)
}

/// What the report says of a backup file.
fn message(report: &BackupReport) -> (r: String)
    requires
        report.wf(),
    ensures
        r@ == backup_message(*report),
{
    match report.status {
        BackupStatus::Missing => "Missing".to_owned(),
        BackupStatus::UnpatchedChanges => match report.patch {
            None => "Unpatched changes".to_owned(),
            Some(p) => {
                let mut out = "More changes that in patch ".to_owned();
                out.append(p.path.as_str());
                out
            },
        },
        BackupStatus::PatchOutdated => {
            let mut out = "Outdated patch at ".to_owned();
            out.append(report.patch.unwrap().path.as_str());
            out
        },
        BackupStatus::FailedComputeMd5 => "Failed to compute md5".to_owned(),
    }
}

/// Every width is at most the largest.
proof fn lemma_widest_backup(reports: Seq<BackupReport>, i: int)
    requires
        0 <= i < reports.len(),
    ensures
        backup_width(reports[i]) <= widest_backup(reports),
    decreases reports.len(),
{
    if i < reports.len() - 1 {
        lemma_widest_backup(reports.drop_last(), i);
        assert(reports.drop_last()[i] == reports[i]);
    }
}

/// The lines for the reported backup files.
pub fn backup_lines(reports: &Vec<BackupReport>) -> (r: Vec<String>)
    requires
        forall|i: int| 0 <= i < reports@.len() ==> (#[trigger] reports@[i]).wf(),
        forall|i: int|
            0 <= i < reports@.len() ==> backup_width(#[trigger] reports@[i]) + 5 <= usize::MAX,
    ensures
        texts(r@) == Seq::new(
            reports@.len(),
            |i: int| backup_line(reports@[i], backup_column(reports@)),
        ),
{
    let mut widest: usize = 0;
    let mut k: usize = 0;
    while k < reports.len()
        invariant
            k <= reports@.len(),
            forall|i: int|
                0 <= i < reports@.len() ==> backup_width(#[trigger] reports@[i]) + 5 <= usize::MAX,
            widest == widest_backup(reports@.take(k as int)),
            widest + 5 <= usize::MAX,
        decreases reports.len() - k,
    {
        assert(reports@.take(k + 1).drop_last() =~= reports@.take(k as int));
        assert(reports@.take(k + 1).last() == reports@[k as int]);
        assert(backup_width(reports@[k as int]) + 5 <= usize::MAX);
        let width = length_in_bytes(reports[k].backup.package.as_str()) + length_in_bytes(
            reports[k].backup.path.as_str(),
        );
        if widest < width {
            widest = width;
        }
        k = k + 1;
    }
    assert(reports@.take(k as int) =~= reports@);
    let column: usize = widest + 5;
    let ghost all = Seq::new(
        reports@.len(),
        |i: int| backup_line(reports@[i], backup_column(reports@)),
    );
    let mut out: Vec<String> = Vec::new();
    let mut i: usize = 0;
    assert(texts(out@) =~= all.take(0));
    while i < reports.len()
        invariant
            i <= reports@.len(),
            forall|j: int| 0 <= j < reports@.len() ==> (#[trigger] reports@[j]).wf(),
            column == backup_column(reports@),
            all == Seq::new(
                reports@.len(),
                |i: int| backup_line(reports@[i], backup_column(reports@)),
            ),
            texts(out@) == all.take(i as int),
        decreases reports.len() - i,
    {
        let report = &reports[i];
        proof {
            lemma_widest_backup(reports@, i as int);
        }
        let mut line = "  ".to_owned();
        line.append(report.backup.package.as_str());
        line.append(": ");
        line.append(
            pad(
                report.backup.path.as_str(),
                column - length_in_bytes(report.backup.package.as_str()),
            ).as_str(),
        );
        line.append(" - ");
        line.append(message(report).as_str());
        let ghost added = line@;
        let ghost before = texts(out@);
        assert(added == all[i as int]);
        out.push(line);
        assert(texts(out@) =~= before.push(added));
        assert(all.take(i + 1) =~= before.push(all[i as int]));
        i = i + 1;
    }
    assert(all.take(i as int) =~= all);
    out
}

/// Where a patch stands with the file that it is for.
#[derive(Debug, Clone, Copy, PartialEq, Eq, Structural)]
pub enum PatchState {
    /// The file cannot be read.
    Unreadable,
    /// The patch could be applied.
    NotApplied,
    /// The patch has been applied.
    Applied,
    /// The patch does not fit the file.
    Outdated,
}

/// Where a patch stands, by what comes of applying it.
pub open spec fn state_after(outcome: Result<Seq<char>, PatchError>) -> PatchState {
    match outcome {
        Ok(_) => PatchState::NotApplied,
        Err(PatchError::AlreadyApplied) => PatchState::Applied,
        Err(PatchError::OutdatedSource) => PatchState::Outdated,
    }
}

/// Where a patch stands, by what comes of applying it.
pub fn outcome_state(outcome: &Result<String, PatchError>) -> (r: PatchState)
    ensures
        r == state_after(outcome_view(*outcome)),
{
    match outcome {
        Ok(_) => PatchState::NotApplied,
        Err(PatchError::AlreadyApplied) => PatchState::Applied,
        Err(PatchError::OutdatedSource) => PatchState::Outdated,
    }
}

/// Where a patch stands with the file that it is for, whose text is `None` where it cannot be
/// read. There is no answer where the patch cannot be held against the text.
pub fn patch_state(patch: &PatchFile, source: Option<String>) -> (r: Option<PatchState>)
    ensures
        match source {
            None => r == Some(PatchState::Unreadable),
            Some(text) => {
                let usable = patch.wf() && patch_in(patch.patch@).fits(text_lines(text@));
                r == if usable {
                    Some(state_after(patch_in(patch.patch@).outcome(text_lines(text@))))
                } else {
                    None
                }
            },
        },
{
    match source {
        None => Some(PatchState::Unreadable),
        Some(text) => match patch.try_apply(text) {
            Some(outcome) => Some(outcome_state(&outcome)),
            None => None,
        },
    }
}

/// What the report says of where a patch stands.
pub open spec fn state_message(state: PatchState) -> Seq<char> {
    match state {
        PatchState::Unreadable => "Failed to read targetted file"@,
        PatchState::NotApplied => "Not applied !!"@,
        PatchState::Applied => "Applied"@,
        PatchState::Outdated => "Outdated !!"@,
    }
}

/// What the report says of where a patch stands.
fn describe(state: PatchState) -> (r: String)
    ensures
        r@ == state_message(state),
{
    match state {
        PatchState::Unreadable => "Failed to read targetted file".to_owned(),
        PatchState::NotApplied => "Not applied !!".to_owned(),
        PatchState::Applied => "Applied".to_owned(),
        PatchState::Outdated => "Outdated !!".to_owned(),
    }
}

/// Another patch file is for the same file as patch `i`.
pub open spec fn has_rival(patches: Seq<PatchFile>, i: int) -> bool {
    exists|j: int|
        0 <= j < patches.len() && same_path((#[trigger] patches[j]).of@, patches[i].of@)
            && !same_path(patches[j].path@, patches[i].path@)
}

/// Whether another patch file is for the same file as patch `i`.
pub fn target_is_duplicated(patches: &Vec<PatchFile>, i: usize) -> (r: bool)
    requires
        i < patches@.len(),
    ensures
        r == has_rival(patches@, i as int),
{
    let mut j: usize = 0;
    while j < patches.len()
        invariant
            i < patches@.len(),
            j <= patches@.len(),
            forall|k: int|
                0 <= k < j ==> !(same_path(
                    (#[trigger] patches@[k]).of@,
                    patches@[i as int].of@,
                ) && !same_path(patches@[k].path@, patches@[i as int].path@)),
        decreases patches.len() - j,
    {
        if paths_equal(patches[j].of.as_str(), patches[i].of.as_str()) && !paths_equal(
            patches[j].path.as_str(),
            patches[i].path.as_str(),
        ) {
            assert(same_path(patches@[j as int].of@, patches@[i as int].of@));
            return true;
        }
        j = j + 1;
    }
    false
}

/// The patch file is not named after the file that it is for.
pub open spec fn is_badly_named(patch: PatchFile) -> bool {
    !same_path(conventional_target(patch.path@), patch.of@)
}

/// The most bytes that the path of a patch file takes.
pub open spec fn widest_patch(patches: Seq<PatchFile>) -> nat
    decreases patches.len(),
{
    if patches.len() == 0 {
        0
    } else {
        let before = widest_patch(patches.drop_last());
        let last = byte_length(patches.last().path@);
        if before < last {
            last
        } else {
            before
        }
    }
}

/// The warning that another patch file is for the same file.
pub open spec fn rival_warning(patches: Seq<PatchFile>, i: int) -> Seq<char> {
    if has_rival(patches, i) {
        "DUPLICATED PATCH TARGET - "@
    } else {
        Seq::empty()
    }
}

/// The warning that the patch file is not named after the file that it is for.
pub open spec fn name_warning(patch: PatchFile) -> Seq<char> {
    if is_badly_named(patch) {
        "BADLY NAMED - "@
    } else {
        Seq::empty()
    }
}

/// The column to which the paths of the patch files are padded.
pub open spec fn patch_column(patches: Seq<PatchFile>) -> int {
    widest_patch(patches) as int + 3
}

/// The line for a patch file: its path, padded to a common column, warnings, and where it stands.
pub open spec fn patch_line(patches: Seq<PatchFile>, i: int, state: PatchState) -> Seq<char> {
    "  "@ + padded(patches[i].path@, patch_column(patches)) + " - "@ + rival_warning(patches, i)
        + name_warning(patches[i]) + state_message(state)
}

/// The line for patch file `i`, whose name ends in `.patch`.
pub fn describe_patch(patches: &Vec<PatchFile>, i: usize, state: PatchState) -> (r: String)
    requires
        i < patches@.len(),
        names_a_target(patches@[i as int].path@),
        forall|k: int|
            0 <= k < patches@.len() ==> byte_length((#[trigger] patches@[k]).path@) + 3
                <= usize::MAX,
    ensures
        r@ == patch_line(patches@, i as int, state),
{
    let mut widest: usize = 0;
    let mut k: usize = 0;
    while k < patches.len()
        invariant
            k <= patches@.len(),
            forall|k: int|
                0 <= k < patches@.len() ==> byte_length((#[trigger] patches@[k]).path@) + 3
                    <= usize::MAX,
            widest == widest_patch(patches@.take(k as int)),
            widest + 3 <= usize::MAX,
        decreases patches.len() - k,
    {
        assert(patches@.take(k + 1).drop_last() =~= patches@.take(k as int));
        assert(patches@.take(k + 1).last() == patches@[k as int]);
        assert(byte_length(patches@[k as int].path@) + 3 <= usize::MAX);
        let width = length_in_bytes(patches[k].path.as_str());
        if widest < width {
            widest = width;
        }
        k = k + 1;
    }
    assert(patches@.take(k as int) =~= patches@);
    let patch = &patches[i];
    let mut line = "  ".to_owned();
    line.append(pad(patch.path.as_str(), widest + 3).as_str());
    line.append(" - ");
    let ghost start = line@;
    if target_is_duplicated(patches, i) {
        line.append("DUPLICATED PATCH TARGET - ");
    } else {
        assert(start + Seq::<char>::empty() =~= start);
    }
    let ghost middle = line@;
    let target = target_by_name(patch.path.as_str()).unwrap();
    if !paths_equal(target.as_str(), patch.of.as_str()) {
        line.append("BADLY NAMED - ");
    } else {
        assert(middle + Seq::<char>::empty() =~= middle);
    }
    line.append(describe(state).as_str());
    line
}

/// Two patch files for the same file that lie in different places are both found duplicated,
/// whatever their texts are; and a patch file is found duplicated only where there is another one
/// for the same file that lies in a different place.
pub proof fn law_duplicated_targets(patches: Seq<PatchFile>, i: int, j: int)
    requires
        0 <= i < patches.len(),
        0 <= j < patches.len(),
    ensures
        same_path(patches[i].of@, patches[j].of@) && !same_path(patches[i].path@, patches[j].path@)
            ==> has_rival(patches, i) && has_rival(patches, j),
        has_rival(patches, i) ==> exists|k: int|
            0 <= k < patches.len() && k != i && same_path(
                patches[i].of@,
                (#[trigger] patches[k]).of@,
            ) && !same_path(patches[i].path@, patches[k].path@),
{
}

/// Whether a patch file is found duplicated depends on the places and the targets of the patch
/// files alone: other texts in them give the same answer.
pub proof fn law_patch_texts_do_not_make_duplicates(
    patches: Seq<PatchFile>,
    others: Seq<PatchFile>,
    i: int,
)
    requires
        0 <= i < patches.len() == others.len(),
        forall|k: int|
            0 <= k < patches.len() ==> (#[trigger] patches[k]).of@ == others[k].of@
                && patches[k].path@ == others[k].path@,
    ensures
        has_rival(patches, i) == has_rival(others, i),
        rival_warning(patches, i) == rival_warning(others, i),
        is_badly_named(patches[i]) == is_badly_named(others[i]),
{
    if has_rival(patches, i) {
        let k = choose|k: int|
            0 <= k < patches.len() && same_path((#[trigger] patches[k]).of@, patches[i].of@)
                && !same_path(patches[k].path@, patches[i].path@);
        assert(same_path(others[k].of@, others[i].of@));
    }
    if has_rival(others, i) {
        let k = choose|k: int|
            0 <= k < others.len() && same_path((#[trigger] others[k]).of@, others[i].of@)
                && !same_path(others[k].path@, others[i].path@);
        assert(same_path(patches[k].of@, patches[i].of@));
    }
}

/// The length in bytes is that of the text in UTF-8.
pub proof fn law_length_in_bytes(s: Seq<char>)
    ensures
        byte_length(s) == encode_utf8(s).len(),
{
}

/// A padded text starts with the text, has nothing but spaces behind it, and is as long as the
/// text or as the width, whichever is more.
pub proof fn law_padding(s: Seq<char>, width: int)
    ensures
        padded(s, width).len() == if width > s.len() {
            width
        } else {
            s.len() as int
        },
        forall|i: int| 0 <= i < s.len() ==> #[trigger] padded(s, width)[i] == s[i],
        forall|i: int|
            s.len() <= i < padded(s, width).len() ==> #[trigger] padded(s, width)[i] == ' ',
{
}

/// The column of the backup files lies five bytes behind the longest package and path: no
/// reported file takes more, and, where there are any, one takes as much.
pub proof fn law_backup_column(reports: Seq<BackupReport>)
    ensures
        forall|i: int|
            0 <= i < reports.len() ==> byte_length((#[trigger] reports[i]).backup.package@)
                + byte_length(reports[i].backup.path@) + 5 <= backup_column(reports),
        reports.len() == 0 ==> backup_column(reports) == 5,
        reports.len() > 0 ==> exists|i: int|
            0 <= i < reports.len() && byte_length((#[trigger] reports[i]).backup.package@)
                + byte_length(reports[i].backup.path@) + 5 == backup_column(reports),
    decreases reports.len(),
{
    if reports.len() > 0 {
        let init = reports.drop_last();
        law_backup_column(init);
        assert forall|i: int| 0 <= i < reports.len() implies byte_length(
            (#[trigger] reports[i]).backup.package@,
        ) + byte_length(reports[i].backup.path@) + 5 <= backup_column(reports) by {
            if i < init.len() {
                assert(init[i] == reports[i]);
            }
        }
        if widest_backup(init) < backup_width(reports.last()) || init.len() == 0 {
            let last = reports[reports.len() - 1];
            assert(backup_width(last) + 5 == backup_column(reports));
        } else {
            let i = choose|i: int|
                0 <= i < init.len() && byte_length((#[trigger] init[i]).backup.package@)
                    + byte_length(init[i].backup.path@) + 5 == backup_column(init);
            assert(reports[i] == init[i]);
        }
    }
}

/// The column of the patch files lies three bytes behind the longest path: no patch file takes
/// more, and, where there are any, one takes as much.
pub proof fn law_patch_column(patches: Seq<PatchFile>)
    ensures
        forall|i: int|
            0 <= i < patches.len() ==> byte_length((#[trigger] patches[i]).path@) + 3
                <= patch_column(patches),
        patches.len() == 0 ==> patch_column(patches) == 3,
        patches.len() > 0 ==> exists|i: int|
            0 <= i < patches.len() && byte_length((#[trigger] patches[i]).path@) + 3
                == patch_column(patches),
    decreases patches.len(),
{
    if patches.len() > 0 {
        let init = patches.drop_last();
        law_patch_column(init);
        assert forall|i: int| 0 <= i < patches.len() implies byte_length(
            (#[trigger] patches[i]).path@,
        ) + 3 <= patch_column(patches) by {
            if i < init.len() {
                assert(init[i] == patches[i]);
            }
        }
        if widest_patch(init) < byte_length(patches.last().path@) || init.len() == 0 {
            let last = patches[patches.len() - 1];
            assert(byte_length(last.path@) + 3 == patch_column(patches));
        } else {
            let i = choose|i: int|
                0 <= i < init.len() && byte_length((#[trigger] init[i]).path@) + 3
                    == patch_column(init);
            assert(patches[i] == init[i]);
        }
    }
}

/// The line for a backup file names its package and its path, and behind them what is wrong, in
/// words that tell every status from the others; the path of a patch that plays a part ends the
/// line.
pub proof fn law_backup_line(report: BackupReport, column: int)
    requires
        report.wf(),
    ensures
        ({
            let head = "  "@ + report.backup.package@ + ": "@ + padded(
                report.backup.path@,
                column - byte_length(report.backup.package@),
            ) + " - "@;
            backup_line(report, column) == head + match report.status {
                BackupStatus::Missing => "Missing"@,
                BackupStatus::FailedComputeMd5 => "Failed to compute md5"@,
                BackupStatus::PatchOutdated => "Outdated patch at "@ + report.patch->0.path@,
                BackupStatus::UnpatchedChanges => if report.patch is Some {
                    "More changes that in patch "@ + report.patch->0.path@
                } else {
                    "Unpatched changes"@
                },
            }
        }),
{
}

/// Where a patch stands with its file is what applying it to the text of the file gives: a patch
/// that would make a new text is not applied, and one that finds itself applied is.
pub proof fn law_patch_states(outcome: Result<Seq<char>, PatchError>)
    ensures
        state_after(outcome) == PatchState::NotApplied <==> outcome is Ok,
        state_after(outcome) == PatchState::Applied <==> outcome == Err::<Seq<char>, PatchError>(
            PatchError::AlreadyApplied,
        ),
        state_after(outcome) == PatchState::Outdated <==> outcome == Err::<Seq<char>, PatchError>(
            PatchError::OutdatedSource,
        ),
{
}

/// The line for a patch file names its path, warns where another patch file is for the same file
/// and where the name is not that of the file, and ends with where the patch stands.
pub proof fn law_patch_line(patches: Seq<PatchFile>, i: int, state: PatchState)
    requires
        0 <= i < patches.len(),
    ensures
        ({
            let rival = exists|j: int|
                0 <= j < patches.len() && same_path(
                    patches[i].of@,
                    (#[trigger] patches[j]).of@,
                ) && !same_path(patches[i].path@, patches[j].path@);
            let named = same_path(patches[i].of@, conventional_target(patches[i].path@));
            patch_line(patches, i, state) == "  "@ + padded(
                patches[i].path@,
                patch_column(patches),
            ) + " - "@ + if rival {
                "DUPLICATED PATCH TARGET - "@
            } else {
                Seq::empty()
            } + if named {
                Seq::empty()
            } else {
                "BADLY NAMED - "@
            } + match state {
                PatchState::Unreadable => "Failed to read targetted file"@,
                PatchState::NotApplied => "Not applied !!"@,
                PatchState::Applied => "Applied"@,
                PatchState::Outdated => "Outdated !!"@,
            }
        }),
{
    if has_rival(patches, i) {
        let j = choose|j: int|
            0 <= j < patches.len() && same_path((#[trigger] patches[j]).of@, patches[i].of@)
                && !same_path(patches[j].path@, patches[i].path@);
        assert(same_path(patches[i].of@, patches[j].of@));
    }
}

} // verus!
