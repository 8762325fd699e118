//! Patch files: what they are for, and applying them.
use gitpatch::{Line, Range};
use vstd::prelude::*;

#[allow(unused_imports)]
use crate::laws::{law_described_change_is_made, no_crlf};
use crate::patch::{Hunk, HunkLine, LineRange, Patch, PatchError};
#[allow(unused_imports)]
use crate::patch::{outcome_view, PatchView};
use crate::path::{has_patch_extension, join_path, paths_equal, within};
#[allow(unused_imports)]
use crate::path::{
    is_absolute, is_patch_path, law_equal_paths_stay_equal_from_the_root,
    law_path_in_directory_leads_back, law_rest_does_not_depend_on_directory,
    law_rest_of_path_is_relative, path_join, path_within, same_path,
};
use crate::shape::is_well_shaped;
#[allow(unused_imports)]
use crate::shape::well_shaped;
#[allow(unused_imports)]
use crate::text::text_lines;

verus! {

/// The error of gitpatch's parser.
#[verifier::external_type_specification]
#[verifier::external_body]
pub struct ExParseError<'a>(gitpatch::ParseError<'a>);

/// The patch that gitpatch's parser makes of a text, `None` where it refuses the text.
pub uninterp spec fn parsed_patch(text: Seq<char>) -> Option<PatchView>;

/// The patch in the text, as `gitpatch::Patch::from_single` reads it: the paths of its header
/// lines, the ranges and lines of its hunks, and whether it carries the note on the missing
/// newline. What it reads is a function of the text. A line of a hunk is read up to its line
/// end, and is refused if it holds another carriage return, so it holds neither carriage
/// returns nor newlines. The parser panics on texts that it understands only in part, and may
/// panic on ones with more lines than it can count; these are not well shaped.
#[verifier::external_body]
fn parse_single<'a>(text: &'a str) -> (r: Result<Patch, gitpatch::ParseError<'a>>)
    requires
        well_shaped(text@),
    ensures
        match r {
            Ok(p) => parsed_patch(text@) == Some(p@) && p@.lines_are_single(),
            Err(_) => parsed_patch(text@) is None,
        },
{
    let range = |r: Range| LineRange { start: r.start, count: r.count };
    let line = |l: Line| match l {
        Line::Add(s) => HunkLine::Add(s.to_string()),
        Line::Remove(s) => HunkLine::Remove(s.to_string()),
        Line::Context(s) => HunkLine::Context(s.to_string()),
    };
    gitpatch::Patch::from_single(text).map(|p| Patch {
        old_path: p.old.path.into_owned(),
        new_path: p.new.path.into_owned(),
        hunks: p.hunks.into_iter().map(|h| Hunk { old_range: range(h.old_range),
            new_range: range(h.new_range), lines: h.lines.into_iter().map(line).collect() })
            .collect(),
        end_newline: p.end_newline,
    })
}

/// The text is a patch.
pub open spec fn is_patch_text(text: Seq<char>) -> bool {
    well_shaped(text) && parsed_patch(text) is Some
}

/// The patch in the text.
pub open spec fn patch_in(text: Seq<char>) -> PatchView {
    parsed_patch(text)->0
}

/// Why a text is not a patch for a file.
#[derive(Debug, PartialEq, Eq, Structural)]
pub enum ReadError {
    /// The text is not a patch.
    Malformed,
    /// The old path does not lie in the directory `a`.
    OldPath,
    /// The new path does not lie in the directory `b`.
    NewPath,
    /// The old and the new path name different files.
    TargetsDiffer,
}

/// What is wrong with the paths of a patch, if anything.
pub open spec fn path_fault(p: PatchView) -> Option<ReadError> {
    match (path_within(p.old_path, "a"@), path_within(p.new_path, "b"@)) {
        (None, _) => Some(ReadError::OldPath),
        (Some(_), None) => Some(ReadError::NewPath),
        (Some(old), Some(new)) => if same_path(old, new) {
            None
        } else {
            Some(ReadError::TargetsDiffer)
        },
    }
}

/// The file that a patch is for: its old path behind the directory `a`, from the root.
pub open spec fn patch_target(p: PatchView) -> Seq<char> {
    path_join("/"@, path_within(p.old_path, "a"@)->0)
}

/// Why the text is not a patch for a file, if it is none.
pub open spec fn read_fault(text: Seq<char>) -> Option<ReadError> {
    if is_patch_text(text) {
        path_fault(patch_in(text))
    } else {
        Some(ReadError::Malformed)
    }
}

/// The patch in the text, if it is one.
pub fn parse_patch(text: &str) -> (r: Option<Patch>)
    ensures
        match r {
            Some(p) => is_patch_text(text@) && p@ == patch_in(text@) && p@.lines_are_single(),
            None => !is_patch_text(text@),
        },
{
    if !is_well_shaped(text) {
        return None;
    }
    match parse_single(text) {
        Ok(p) => Some(p),
        Err(_) => None,
    }
}

/// The file that the patch is for, or what is wrong with its paths.
pub fn target_of(p: &Patch) -> (r: Result<String, ReadError>)
    ensures
        match r {
            Ok(target) => path_fault(p@) is None && target@ == patch_target(p@),
            Err(e) => path_fault(p@) == Some(e),
        },
{
    let old = match within(p.old_path.as_str(), "a") {
        Some(old) => old,
        None => return Err(ReadError::OldPath),
    };
    let new = match within(p.new_path.as_str(), "b") {
        Some(new) => new,
        None => return Err(ReadError::NewPath),
    };
    if !paths_equal(old.as_str(), new.as_str()) {
        return Err(ReadError::TargetsDiffer);
    }
    Ok(join_path("/", old.as_str()))
}

/// A patch file.
#[derive(Debug)]
pub struct PatchFile {
    /// Where the patch file lies.
    pub path: String,
    /// The file that the patch is for.
    pub of: String,
    /// The text of the patch file.
    pub patch: String,
}

impl PatchFile {
    /// The patch file holds a patch.
    pub open spec fn wf(self) -> bool {
        is_patch_text(self.patch@)
    }

    /// The patch file at `path` with the text `patch`, which is a patch for one file.
    pub fn read(path: String, patch: String) -> (r: Self)
        requires
            read_fault(patch@) is None,
        ensures
            r.wf(),
            r.path == path,
            r.patch == patch,
            r.of@ == patch_target(patch_in(patch@)),
    {
        let p = parse_patch(patch.as_str()).unwrap();
        let of = target_of(&p).unwrap();
        PatchFile { path, of, patch }
    }

    /// The patch file at `path` with the text `patch`, or why the text is not a patch for one
    /// file.
    pub fn try_read(path: String, patch: String) -> (r: Result<Self, ReadError>)
        ensures
            match r {
                Ok(f) => read_fault(patch@) is None && f.wf() && f.path == path && f.patch == patch
                    && f.of@ == patch_target(patch_in(patch@)),
                Err(e) => read_fault(patch@) == Some(e),
            },
    {
        match parse_patch(patch.as_str()) {
            Some(p) => match target_of(&p) {
                Ok(_) => Ok(PatchFile::read(path, patch)),
                Err(e) => Err(e),
            },
            None => Err(ReadError::Malformed),
        }
    }

    /// The patch in the file.
    pub fn as_gitpatch(&self) -> (r: Patch)
        requires
            self.wf(),
        ensures
            r@ == patch_in(self.patch@),
            r@.lines_are_single(),
    {
        parse_patch(self.patch.as_str()).unwrap()
    }

    /// Applies the patch to the text: the new text, `AlreadyApplied` where every hunk has been
    /// applied before, else `OutdatedSource`.
    pub fn apply(&self, source: String) -> (r: Result<String, PatchError>)
        requires
            self.wf(),
            patch_in(self.patch@).fits(text_lines(source@)),
        ensures
            outcome_view(r) == patch_in(self.patch@).outcome(text_lines(source@)),
    {
        self.as_gitpatch().apply(source.as_str())
    }

    /// Applies the patch to the text, if the file holds a patch that can be held against it.
    pub fn try_apply(&self, source: String) -> (r: Option<Result<String, PatchError>>)
        ensures
            match r {
                Some(outcome) => self.wf() && patch_in(self.patch@).fits(text_lines(source@))
                    && outcome_view(outcome) == patch_in(self.patch@).outcome(text_lines(source@)),
                None => !(self.wf() && patch_in(self.patch@).fits(text_lines(source@))),
            },
    {
        match parse_patch(self.patch.as_str()) {
            Some(p) => if p.fits_text(source.as_str()) {
                Some(self.apply(source))
            } else {
                None
            },
            None => None,
        }
    }
}

/// An entry of the directory of patch files.
#[derive(Debug)]
pub struct DirEntry {
    pub path: String,
    /// Whether the entry is a regular file.
    pub is_file: bool,
    /// The text of the file, of which only that of patch files matters.
    pub text: String,
}

/// What a `PatchFile` holds.
pub struct PatchFileView {
    pub path: Seq<char>,
    pub of: Seq<char>,
    pub patch: Seq<char>,
}

impl View for PatchFile {
    type V = PatchFileView;

    open spec fn view(&self) -> PatchFileView {
        PatchFileView { path: self.path@, of: self.of@, patch: self.patch@ }
    }
}

/// What came of reading a patch file, the file taken by what it holds.
pub open spec fn reading_view(r: Result<PatchFile, ReadError>) -> Result<PatchFileView, ReadError> {
    match r {
        Ok(file) => Ok(file@),
        Err(e) => Err(e),
    }
}

/// The entry is a patch file: a regular file with the extension `patch`.
pub open spec fn is_patch_file(path: Seq<char>, is_file: bool) -> bool {
    is_file && is_patch_path(path)
}

/// The entries that are patch files, in their order.
pub open spec fn patch_entries(entries: Seq<DirEntry>) -> Seq<DirEntry>
    decreases entries.len(),
{
    if entries.len() == 0 {
        Seq::empty()
    } else if is_patch_file(entries.last().path@, entries.last().is_file) {
        patch_entries(entries.drop_last()).push(entries.last())
    } else {
        patch_entries(entries.drop_last())
    }
}

/// What comes of reading the entry as a patch file.
pub open spec fn reading_of(entry: DirEntry) -> Result<PatchFileView, ReadError> {
    match read_fault(entry.text@) {
        Some(e) => Err(e),
        None => Ok(
            PatchFileView {
                path: entry.path@,
                of: patch_target(patch_in(entry.text@)),
                patch: entry.text@,
            },
        ),
    }
}

/// Whether a directory entry is a patch file.
pub fn selects_entry(path: &str, is_file: bool) -> (r: bool)
    ensures
        r == is_patch_file(path@, is_file),
{
    is_file && has_patch_extension(path)
}

/// The patch files among the entries of a directory, in their order, each as it was read or
/// with the reason why its text is not a patch for one file.
pub fn iter_patch_files(entries: &Vec<DirEntry>) -> (r: Vec<Result<PatchFile, ReadError>>)
    ensures
        r@.map_values(|f: Result<PatchFile, ReadError>| reading_view(f)) == patch_entries(
            entries@,
        ).map_values(|e: DirEntry| reading_of(e)),
        forall|i: int|
            0 <= i < r@.len() && (#[trigger] r@[i]) is Ok ==> r@[i]->Ok_0.wf() && is_patch_path(
                r@[i]->Ok_0.path@,
            ),
{
    let mut files: Vec<Result<PatchFile, ReadError>> = Vec::new();
    let mut k: usize = 0;
    let ghost seen = |f: Result<PatchFile, ReadError>| reading_view(f);
    let ghost due = |e: DirEntry| reading_of(e);
    assert(files@.map_values(seen) =~= patch_entries(entries@.take(0)).map_values(due));
    while k < entries.len()
        invariant
            k <= entries@.len(),
            seen == (|f: Result<PatchFile, ReadError>| reading_view(f)),
            due == (|e: DirEntry| reading_of(e)),
            files@.map_values(seen) == patch_entries(entries@.take(k as int)).map_values(due),
            forall|i: int|
                0 <= i < files@.len() && (#[trigger] files@[i]) is Ok ==> files@[i]->Ok_0.wf()
                    && is_patch_path(files@[i]->Ok_0.path@),
        decreases entries.len() - k,
    {
        let entry = &entries[k];
        let ghost before = patch_entries(entries@.take(k as int));
        let ghost so_far = files@;
        assert(entries@.take(k + 1).drop_last() =~= entries@.take(k as int));
        assert(entries@.take(k + 1).last() == *entry);
        if selects_entry(entry.path.as_str(), entry.is_file) {
            let file = PatchFile::try_read(entry.path.clone(), entry.text.clone());
            assert(so_far.push(file).map_values(seen) =~= so_far.map_values(seen).push(
                reading_view(file),
            ));
            assert(before.push(*entry).map_values(due) =~= before.map_values(due).push(
                reading_of(*entry),
            ));
            files.push(file);
        }
        k = k + 1;
    }
    assert(entries@.take(k as int) =~= entries@);
    files
}

/// The file that a patch is for has an absolute path, and both paths of the patch lead to it.
pub proof fn law_both_paths_lead_to_the_target(p: PatchView)
    requires
        path_fault(p) is None,
    ensures
        is_absolute(patch_target(p)),
        same_path(patch_target(p), path_join("/"@, path_within(p.new_path, "b"@)->0)),
{
    law_rest_of_path_is_relative(p.old_path, "a"@);
    law_rest_of_path_is_relative(p.new_path, "b"@);
    law_equal_paths_stay_equal_from_the_root(
        path_within(p.old_path, "a"@)->0,
        path_within(p.new_path, "b"@)->0,
    );
    reveal_strlit("/");
}

/// A patch whose paths are that of a file in the directories `a` and `b` is for that file.
pub proof fn law_patch_is_for_the_file_it_names(p: PatchView, file: Seq<char>)
    requires
        is_absolute(file),
        p.old_path == "a"@ + file,
        p.new_path == "b"@ + file,
    ensures
        path_fault(p) is None,
        same_path(patch_target(p), file),
{
    reveal_strlit("a");
    reveal_strlit("b");
    law_path_in_directory_leads_back(file, "a"@);
    law_path_in_directory_leads_back(file, "b"@);
    law_rest_does_not_depend_on_directory(file, "a"@, "b"@);
}

/// A difference, kept as a patch file, is for the file that it was made for, and makes its
/// current text of the original one: where the paths of the patch are that of the file in the
/// directories `a` and `b`, and the patch describes the change from the original to the current
/// text, with or without context lines, reading the patch file gives that file, and applying it
/// to the original text gives the current text. Left out are current texts with carriage returns
/// before newlines, which applying a patch does not write.
pub proof fn law_difference_leads_to_current_text(
    patch: Seq<char>,
    file: Seq<char>,
    original: Seq<char>,
    current: Seq<char>,
)
    requires
        is_patch_text(patch),
        is_absolute(file),
        patch_in(patch).old_path == "a"@ + file,
        patch_in(patch).new_path == "b"@ + file,
        patch_in(patch).describes(text_lines(original), text_lines(current)),
        no_crlf(current),
        current.len() > 0 ==> patch_in(patch).end_newline == (current.last() == '\n'),
        text_lines(original).len() < usize::MAX,
        text_lines(current).len() < usize::MAX,
    ensures
        read_fault(patch) is None,
        same_path(patch_target(patch_in(patch)), file),
        patch_in(patch).fits(text_lines(original)),
        patch_in(patch).outcome(text_lines(original)) == Ok::<Seq<char>, PatchError>(current),
{
    assert(path_fault(patch_in(patch)) is None && same_path(patch_target(patch_in(patch)), file))
        by {
        law_patch_is_for_the_file_it_names(patch_in(patch), file);
    }
    law_described_change_is_made(patch_in(patch), original, current);
}

/// The entries that are read are the regular files with the extension `patch`, in their order.
pub proof fn law_selected_entries(entries: Seq<DirEntry>)
    ensures
        patch_entries(entries) == entries.filter(
            |e: DirEntry| e.is_file && is_patch_path(e.path@),
        ),
    decreases entries.len(),
{
    reveal(Seq::filter);
    if entries.len() > 0 {
        law_selected_entries(entries.drop_last());
    }
}

/// A text is refused as malformed if and only if it is not well shaped or gitpatch refuses it;
/// and what is wrong with the paths of a patch is told in the order in which they are looked at:
/// an old path that does not lie in `a`, a new path that does not lie in `b`, or paths that name
/// different files. Everything else is read.
pub proof fn law_what_is_refused(text: Seq<char>)
    ensures
        ({
            let readable = well_shaped(text) && parsed_patch(text) is Some;
            let p = parsed_patch(text)->0;
            let old = path_within(p.old_path, seq!['a']);
            let new = path_within(p.new_path, seq!['b']);
            &&& read_fault(text) == Some(ReadError::Malformed) <==> !readable
            &&& read_fault(text) == Some(ReadError::OldPath) <==> readable && old is None
            &&& read_fault(text) == Some(ReadError::NewPath) <==> readable && old is Some
                && new is None
            &&& read_fault(text) == Some(ReadError::TargetsDiffer) <==> readable && old is Some
                && new is Some && !same_path(old->0, new->0)
            &&& read_fault(text) is None <==> readable && old is Some && new is Some && same_path(
                old->0,
                new->0,
            )
            &&& readable ==> is_patch_text(text) && patch_in(text) == p
            &&& !readable ==> !is_patch_text(text)
            &&& old is Some ==> patch_target(p) == path_join(seq!['/'], old->0)
        }),
{
    reveal_strlit("a");
    reveal_strlit("b");
    reveal_strlit("/");
    assert("a"@ =~= seq!['a']);
    assert("b"@ =~= seq!['b']);
    assert("/"@ =~= seq!['/']);
}

/// What is read of an entry is its path, its text and the file that the patch in it is for, or
/// the reason why the text is refused.
pub proof fn law_reading_an_entry(entry: DirEntry)
    ensures
        match reading_of(entry) {
            Ok(file) => read_fault(entry.text@) is None && file.path == entry.path@ && file.patch
                == entry.text@ && file.of == patch_target(parsed_patch(entry.text@)->0),
            Err(e) => read_fault(entry.text@) == Some(e),
        },
{
}

/// What a patch file holds is what its fields hold.
pub proof fn law_view_keeps_the_patch_file(file: PatchFile, error: ReadError)
    ensures
        file@.path == file.path@,
        file@.of == file.of@,
        file@.patch == file.patch@,
        reading_view(Ok(file)) == Ok::<PatchFileView, ReadError>(file@),
        reading_view(Err(error)) == Err::<PatchFileView, ReadError>(error),
        file.wf() <==> well_shaped(file.patch@) && parsed_patch(file.patch@) is Some,
{
}

/// A patch file is a regular file with the extension `patch`, and nothing else.
pub proof fn law_patch_files(path: Seq<char>, is_file: bool)
    ensures
        is_patch_file(path, is_file) <==> is_file && is_patch_path(path),
{
}

} // verus!
