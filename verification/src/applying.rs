//! Applying all patches: what is done with each file, and what holds of runs as a whole.
use vstd::prelude::*;

#[allow(unused_imports)]
use crate::patch::outcome_view;
use crate::patch::PatchError;
#[allow(unused_imports)]
use crate::patch_file::patch_in;
use crate::patch_file::PatchFile;
#[allow(unused_imports)]
use crate::text::text_lines;

verus! {

/// What became of a patch file when all patches were applied.
#[derive(Debug)]
pub enum Application {
    /// The new text was written.
    Written,
    /// The new text could not be written, for the given reason.
    WriteFailed(String),
    /// The patch had been applied before; nothing was written.
    AlreadyApplied,
    /// The patch does not fit the file; nothing was written.
    Outdated,
}

/// What is to be done with a file once its patch has been held against its text.
#[derive(Debug)]
pub enum ApplyStep {
    /// The file gets this text.
    Write(String),
    /// Nothing is written.
    Settled(Application),
}

/// The step follows from what came of applying the patch: a new text is written, and nothing
/// else is.
pub open spec fn is_next_step(step: ApplyStep, outcome: Result<Seq<char>, PatchError>) -> bool {
    match outcome {
        Ok(text) => step matches ApplyStep::Write(t) && t@ == text,
        Err(PatchError::AlreadyApplied) => step == ApplyStep::Settled(Application::AlreadyApplied),
        Err(PatchError::OutdatedSource) => step == ApplyStep::Settled(Application::Outdated),
    }
}

/// What became of a file that gets a new text, by the reason for which it could not be written,
/// if there was one.
pub open spec fn written(write_error: Option<String>) -> Application {
    match write_error {
        None => Application::Written,
        Some(reason) => Application::WriteFailed(reason),
    }
}

/// The patch can be held against the text.
pub open spec fn can_be_held(patch: PatchFile, source: Seq<char>) -> bool {
    patch.wf() && patch_in(patch.patch@).fits(text_lines(source))
}

/// What comes of applying the patch to the text.
pub open spec fn outcome_on(patch: PatchFile, source: Seq<char>) -> Result<Seq<char>, PatchError> {
    patch_in(patch.patch@).outcome(text_lines(source))
}

/// The step after applying a patch.
pub fn after_patching(outcome: Result<String, PatchError>) -> (r: ApplyStep)
    ensures
        is_next_step(r, outcome_view(outcome)),
{
    match outcome {
        Ok(text) => ApplyStep::Write(text),
        Err(PatchError::AlreadyApplied) => ApplyStep::Settled(Application::AlreadyApplied),
        Err(PatchError::OutdatedSource) => ApplyStep::Settled(Application::Outdated),
    }
}

/// The step after reading the file that the patch is for; `None` where the patch cannot be held
/// against the text.
pub fn after_reading(patch: &PatchFile, source: String) -> (r: Option<ApplyStep>)
    ensures
        match r {
            Some(step) => can_be_held(*patch, source@) && is_next_step(
                step,
                outcome_on(*patch, source@),
            ),
            None => !can_be_held(*patch, source@),
        },
{
    match patch.try_apply(source) {
        Some(outcome) => Some(after_patching(outcome)),
        None => None,
    }
}

/// What became of the file after writing its new text, by the reason for which that failed, if
/// it did.
pub fn after_writing(write_error: Option<String>) -> (r: Application)
    ensures
        r == written(write_error),
{
    match write_error {
        None => Application::Written,
        Some(reason) => Application::WriteFailed(reason),
    }
}

impl Application {
    /// What is printed.
    pub open spec fn message(self) -> Seq<char> {
        match self {
            Application::Written => "OK"@,
            Application::WriteFailed(reason) => "ERR ("@ + reason@ + ")"@,
            Application::AlreadyApplied => "OK (already applied)"@,
            Application::Outdated => "ERROR (patch is outdated)"@,
        }
    }

    /// The file does not have the new text.
    pub open spec fn is_failure(self) -> bool {
        self is WriteFailed || self is Outdated
    }

    /// What is printed.
    pub fn text(&self) -> (r: String)
        ensures
            r@ == self.message(),
    {
        match self {
            Application::Written => "OK".to_owned(),
            Application::WriteFailed(reason) => {
                let mut out = "ERR (".to_owned();
                out.append(reason.as_str());
                out.append(")");
                out
            },
            Application::AlreadyApplied => "OK (already applied)".to_owned(),
            Application::Outdated => "ERROR (patch is outdated)".to_owned(),
        }
    }

    /// Whether the file does not have the new text.
    pub fn failed(&self) -> (r: bool)
        ensures
            r == self.is_failure(),
    {
        match self {
            Application::WriteFailed(_) => true,
            Application::Outdated => true,
            _ => false,
        }
    }
}

/// The status with which the program ends: one if any patch failed, else zero.
pub open spec fn status(applications: Seq<Application>) -> int {
    if exists|i: int| 0 <= i < applications.len() && (#[trigger] applications[i]).is_failure() {
        1
    } else {
        0
    }
}

/// The status with which the program ends: one if any patch failed, else zero.
pub fn exit_status(applications: &Vec<Application>) -> (r: i32)
    ensures
        r == status(applications@),
{
    let mut i: usize = 0;
    while i < applications.len()
        invariant
            i <= applications@.len(),
            forall|j: int| 0 <= j < i ==> !(#[trigger] applications@[j]).is_failure(),
        decreases applications.len() - i,
    {
        if applications[i].failed() {
            assert(applications@[i as int].is_failure());
            return 1;
        }
        i = i + 1;
    }
    0
}

/// A write that failed: the reason, and the text that the file is left with, `None` where it
/// is left without one.
pub struct WriteFault {
    pub reason: String,
    pub left: Option<Seq<char>>,
}

/// How far a run has come: the texts of the files, each by its path, and what became of the
/// patches so far.
pub struct RunView {
    pub files: Map<Seq<char>, Seq<char>>,
    pub applications: Seq<Application>,
}

/// The reason of a failed write.
pub open spec fn fault_reason(fault: Option<WriteFault>) -> Option<String> {
    match fault {
        None => None,
        Some(f) => Some(f.reason),
    }
}

/// The files after writing the text to the file at `path`.
pub open spec fn files_after_writing(
    files: Map<Seq<char>, Seq<char>>,
    path: Seq<char>,
    text: Seq<char>,
    fault: Option<WriteFault>,
) -> Map<Seq<char>, Seq<char>> {
    match fault {
        None => files.insert(path, text),
        Some(f) => match f.left {
            Some(left) => files.insert(path, left),
            None => files.remove(path),
        },
    }
}

/// The run after one more patch: a new text is written, with or without a fault, and otherwise
/// the files stay as they are.
pub open spec fn run_step(run: RunView, patch: PatchFile, fault: Option<WriteFault>) -> RunView {
    match outcome_on(patch, run.files[patch.of@]) {
        Ok(text) => RunView {
            files: files_after_writing(run.files, patch.of@, text, fault),
            applications: run.applications.push(written(fault_reason(fault))),
        },
        Err(PatchError::AlreadyApplied) => RunView {
            files: run.files,
            applications: run.applications.push(Application::AlreadyApplied),
        },
        Err(PatchError::OutdatedSource) => RunView {
            files: run.files,
            applications: run.applications.push(Application::Outdated),
        },
    }
}

/// The run after the first `k` patches, where `faults[i]` tells of a write for patch `i`
/// whether it fails.
pub open spec fn run_of(
    patches: Seq<PatchFile>,
    faults: Seq<Option<WriteFault>>,
    files: Map<Seq<char>, Seq<char>>,
    k: int,
) -> RunView
    decreases k,
{
    if k <= 0 {
        RunView { files, applications: Seq::empty() }
    } else {
        run_step(run_of(patches, faults, files, k - 1), patches[k - 1], faults[k - 1])
    }
}

/// The run goes through all patches: each finds its file, and can be held against its text.
pub open spec fn run_completes(
    patches: Seq<PatchFile>,
    faults: Seq<Option<WriteFault>>,
    files: Map<Seq<char>, Seq<char>>,
) -> bool {
    forall|k: int|
        0 <= k < patches.len() ==> {
            let now = run_of(patches, faults, files, k).files;
            now.contains_key((#[trigger] patches[k]).of@) && can_be_held(
                patches[k],
                now[patches[k].of@],
            )
        }
}

/// Every patch finds its file, and finds itself applied to it.
pub open spec fn all_applied(
    patches: Seq<PatchFile>,
    files: Map<Seq<char>, Seq<char>>,
) -> bool {
    forall|i: int|
        0 <= i < patches.len() ==> {
            let text = files[(#[trigger] patches[i]).of@];
            &&& files.contains_key(patches[i].of@)
            &&& can_be_held(patches[i], text)
            &&& outcome_on(patches[i], text) == Err::<Seq<char>, PatchError>(
                PatchError::AlreadyApplied,
            )
        }
}

/// A run leaves the files alone as long as every patch finds itself applied.
proof fn lemma_applied_run(
    patches: Seq<PatchFile>,
    faults: Seq<Option<WriteFault>>,
    files: Map<Seq<char>, Seq<char>>,
    k: int,
)
    requires
        all_applied(patches, files),
        0 <= k <= patches.len(),
    ensures
        run_of(patches, faults, files, k).files == files,
        run_of(patches, faults, files, k).applications == Seq::new(
            k as nat,
            |i: int| Application::AlreadyApplied,
        ),
    decreases k,
{
    if k > 0 {
        lemma_applied_run(patches, faults, files, k - 1);
        assert(outcome_on(patches[k - 1], files[patches[k - 1].of@]) == Err::<
            Seq<char>,
            PatchError,
        >(PatchError::AlreadyApplied));
    }
    assert(run_of(patches, faults, files, k).applications =~= Seq::new(
        k as nat,
        |i: int| Application::AlreadyApplied,
    ));
}

/// Where every patch finds itself applied, a run goes through all patches, has nothing to write,
/// leaves the files as they are, tells of each patch that it had been applied before, and ends
/// with status zero.
#[verifier::rlimit(40)]
pub proof fn law_applied_patches_change_nothing(
    patches: Seq<PatchFile>,
    faults: Seq<Option<WriteFault>>,
    files: Map<Seq<char>, Seq<char>>,
)
    requires
        all_applied(patches, files),
    ensures
        run_completes(patches, faults, files),
        forall|i: int, step: ApplyStep|
            0 <= i < patches.len() && #[trigger] is_next_step(
                step,
                outcome_on(patches[i], files[patches[i].of@]),
            ) ==> step !is Write,
        ({
            let run = run_of(patches, faults, files, patches.len() as int);
            &&& run.files == files
            &&& run.applications.len() == patches.len()
            &&& forall|i: int|
                0 <= i < patches.len() ==> (#[trigger] run.applications[i]).message()
                    == "OK (already applied)"@
            &&& status(run.applications) == 0
        }),
{
    let n = patches.len() as int;
    assert forall|k: int| 0 <= k < n implies {
        let now = run_of(patches, faults, files, k).files;
        now.contains_key((#[trigger] patches[k]).of@) && can_be_held(
            patches[k],
            now[patches[k].of@],
        )
    } by {
        lemma_applied_run(patches, faults, files, k);
    }
    lemma_applied_run(patches, faults, files, n);
}

/// A second run writes nothing: where every patch finds itself applied after a first run,
/// whatever its writes came to, the second one leaves the files as the first did, tells of each
/// patch that it had been applied before, and ends with status zero.
pub proof fn law_second_run_changes_nothing(
    patches: Seq<PatchFile>,
    first_faults: Seq<Option<WriteFault>>,
    second_faults: Seq<Option<WriteFault>>,
    files: Map<Seq<char>, Seq<char>>,
)
    requires
        all_applied(
            patches,
            run_of(patches, first_faults, files, patches.len() as int).files,
        ),
    ensures
        ({
            let after = run_of(patches, first_faults, files, patches.len() as int).files;
            let second = run_of(patches, second_faults, after, patches.len() as int);
            &&& run_completes(patches, second_faults, after)
            &&& second.files == after
            &&& second.applications.len() == patches.len()
            &&& forall|i: int|
                0 <= i < patches.len() ==> (#[trigger] second.applications[i]).message()
                    == "OK (already applied)"@
            &&& status(second.applications) == 0
        }),
{
    law_applied_patches_change_nothing(
        patches,
        second_faults,
        run_of(patches, first_faults, files, patches.len() as int).files,
    );
}

/// The files go by distinct paths.
pub open spec fn targets_differ(patches: Seq<PatchFile>) -> bool {
    forall|i: int, j: int|
        0 <= i < j < patches.len() ==> (#[trigger] patches[i]).of@ != (#[trigger] patches[j]).of@
}

/// The first `k` patches of a run are settled by the texts that their files had before it, and
/// the files of the other patches still have those texts.
proof fn lemma_run_prefix(
    patches: Seq<PatchFile>,
    faults: Seq<Option<WriteFault>>,
    files: Map<Seq<char>, Seq<char>>,
    k: int,
)
    requires
        targets_differ(patches),
        0 <= k <= patches.len(),
    ensures
        ({
            let run = run_of(patches, faults, files, k);
            &&& run.applications.len() == k
            &&& forall|i: int|
                0 <= i < k ==> is_settled(run, #[trigger] patches[i], faults[i], files, i)
            &&& forall|path: Seq<char>|
                (forall|i: int| 0 <= i < k ==> (#[trigger] patches[i]).of@ != path) ==> (
                #[trigger] run.files.contains_key(path) == files.contains_key(path)
                    && run.files[path] == files[path])
        }),
    decreases k,
{
    if k > 0 {
        lemma_run_prefix(patches, faults, files, k - 1);
        let before = run_of(patches, faults, files, k - 1);
        let run = run_of(patches, faults, files, k);
        let of = patches[k - 1].of@;
        assert(before.files.contains_key(of) == files.contains_key(of) && before.files[of]
            == files[of]);
        assert forall|i: int| 0 <= i < k implies is_settled(
            run,
            #[trigger] patches[i],
            faults[i],
            files,
            i,
        ) by {
            if i < k - 1 {
                assert(is_settled(before, patches[i], faults[i], files, i));
                assert(patches[i].of@ != patches[k - 1].of@);
                assert(run.applications[i] == before.applications[i]);
            }
        }
        assert forall|path: Seq<char>|
            (forall|i: int| 0 <= i < k ==> (#[trigger] patches[i]).of@ != path) implies (
        #[trigger] run.files.contains_key(path) == files.contains_key(path) && run.files[path]
            == files[path]) by {
            assert(patches[k - 1].of@ != path);
            assert(before.files.contains_key(path) == files.contains_key(path));
        }
    }
}

/// Patch `i` of a run was settled by the text that its file had before the run: a new text was
/// written, with or without a fault, and otherwise the file is as it was.
pub open spec fn is_settled(
    run: RunView,
    patch: PatchFile,
    fault: Option<WriteFault>,
    files: Map<Seq<char>, Seq<char>>,
    i: int,
) -> bool {
    let of = patch.of@;
    match outcome_on(patch, files[of]) {
        Ok(text) => {
            &&& run.applications[i] == written(fault_reason(fault))
            &&& fault is None ==> run.files.contains_key(of) && run.files[of] == text
        },
        Err(e) => {
            &&& run.applications[i] == match e {
                PatchError::AlreadyApplied => Application::AlreadyApplied,
                PatchError::OutdatedSource => Application::Outdated,
            }
            &&& run.files.contains_key(of) == files.contains_key(of)
            &&& run.files[of] == files[of]
        },
    }
}

/// A run for distinct files settles each patch by the text that its file had before the run,
/// whatever the other patches do, and leaves all other files alone. It ends with status zero if
/// and only if every patch either had been applied before or made a text that was written.
pub proof fn law_run_settles_each_patch(
    patches: Seq<PatchFile>,
    faults: Seq<Option<WriteFault>>,
    files: Map<Seq<char>, Seq<char>>,
)
    requires
        targets_differ(patches),
    ensures
        ({
            let run = run_of(patches, faults, files, patches.len() as int);
            &&& run.applications.len() == patches.len()
            &&& forall|i: int|
                0 <= i < patches.len() ==> is_settled(
                    run,
                    #[trigger] patches[i],
                    faults[i],
                    files,
                    i,
                )
            &&& forall|path: Seq<char>|
                (forall|i: int| 0 <= i < patches.len() ==> (#[trigger] patches[i]).of@ != path)
                    ==> (#[trigger] run.files.contains_key(path) == files.contains_key(path)
                    && run.files[path] == files[path])
            &&& status(run.applications) == 0 <==> forall|i: int|
                0 <= i < patches.len() ==> match outcome_on(
                    #[trigger] patches[i],
                    files[patches[i].of@],
                ) {
                    Ok(_) => faults[i] is None,
                    Err(e) => e == PatchError::AlreadyApplied,
                }
        }),
{
    let n = patches.len() as int;
    let run = run_of(patches, faults, files, n);
    lemma_run_prefix(patches, faults, files, n);
    assert forall|i: int| 0 <= i < n implies (#[trigger] run.applications[i]).is_failure() == !(
    match outcome_on(patches[i], files[patches[i].of@]) {
        Ok(_) => faults[i] is None,
        Err(e) => e == PatchError::AlreadyApplied,
    }) by {
        assert(is_settled(run, patches[i], faults[i], files, i));
    }
    if status(run.applications) == 0 {
        assert forall|i: int| 0 <= i < n implies match outcome_on(
            #[trigger] patches[i],
            files[patches[i].of@],
        ) {
            Ok(_) => faults[i] is None,
            Err(e) => e == PatchError::AlreadyApplied,
        } by {
            assert(!run.applications[i].is_failure());
        }
    }
}

/// A file is written if and only if its patch makes a new text, and then gets that text; and
/// what became of it is that it was written, unless writing failed for a reason, which is kept.
pub proof fn law_what_is_written(
    step: ApplyStep,
    outcome: Result<Seq<char>, PatchError>,
    reason: String,
)
    requires
        is_next_step(step, outcome),
    ensures
        step is Write <==> outcome is Ok,
        step matches ApplyStep::Write(text) ==> outcome == Ok::<Seq<char>, PatchError>(text@),
        step matches ApplyStep::Settled(settled) ==> match outcome {
            Err(PatchError::AlreadyApplied) => settled is AlreadyApplied,
            Err(PatchError::OutdatedSource) => settled is Outdated,
            Ok(_) => false,
        },
        written(None) is Written,
        written(Some(reason)) == Application::WriteFailed(reason),
{
}

/// Every outcome is followed by a step.
pub proof fn law_every_outcome_has_a_step(text: String)
    ensures
        is_next_step(ApplyStep::Write(text), Ok(text@)),
        is_next_step(
            ApplyStep::Settled(Application::AlreadyApplied),
            Err(PatchError::AlreadyApplied),
        ),
        is_next_step(ApplyStep::Settled(Application::Outdated), Err(PatchError::OutdatedSource)),
{
}

/// The program ends with status zero if and only if every file was written or had its patch
/// before, and else with status one.
pub proof fn law_exit_status(applications: Seq<Application>)
    ensures
        status(applications) == 0 <==> forall|i: int|
            0 <= i < applications.len() ==> (#[trigger] applications[i]) is Written
                || applications[i] is AlreadyApplied,
        status(applications) == 0 || status(applications) == 1,
{
    if status(applications) == 0 {
        assert forall|i: int| 0 <= i < applications.len() implies (#[trigger] applications[i])
            is Written || applications[i] is AlreadyApplied by {
            assert(!applications[i].is_failure());
        }
    }
}

/// What is printed of a patch tells what became of it.
pub proof fn law_messages(reason: String)
    ensures
        Application::Written.message() == "OK"@,
        Application::AlreadyApplied.message() == "OK (already applied)"@,
        Application::Outdated.message() == "ERROR (patch is outdated)"@,
        Application::WriteFailed(reason).message() == "ERR ("@ + reason@ + ")"@,
        !Application::Written.is_failure(),
        !Application::AlreadyApplied.is_failure(),
        Application::Outdated.is_failure(),
        Application::WriteFailed(reason).is_failure(),
{
}

/// A patch can be held against a text if and only if its file holds a patch that fits the lines
/// of the text, and what comes of it is what comes of that patch.
pub proof fn law_held_patches(patch: PatchFile, source: Seq<char>)
    ensures
        can_be_held(patch, source) <==> patch.wf() && patch_in(patch.patch@).fits(
            text_lines(source),
        ),
        outcome_on(patch, source) == patch_in(patch.patch@).outcome(text_lines(source)),
{
}

} // verus!
