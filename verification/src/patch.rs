//! Patches and their application to a text.
use vstd::prelude::*;

use crate::text::{join, lemma_joined_unlines, lemma_unlines_concat, lines};
#[allow(unused_imports)]
use crate::text::{text_lines, texts, unlines};

verus! {

/// Why a patch was not applied.
#[derive(Debug, PartialEq, Eq, Structural)]
pub enum PatchError {
    /// The text already holds what the patch would put there.
    AlreadyApplied,
    /// The text is not the one that the patch was made for.
    OutdatedSource,
}

/// A range of lines: the number of its first line, counted from one, and how many there are. An
/// empty range is given by the number of the line before it, which is zero at the start of the
/// text.
#[derive(Debug, Clone, Copy, PartialEq, Eq, Structural)]
pub struct LineRange {
    pub start: u64,
    pub count: u64,
}

/// A line of a hunk.
#[derive(Debug)]
pub enum HunkLine {
    /// A line that only the new text has.
    Add(String),
    /// A line that only the old text has.
    Remove(String),
    /// A line that both texts have.
    Context(String),
}

/// One place at which the old and the new text differ.
#[derive(Debug)]
pub struct Hunk {
    pub old_range: LineRange,
    pub new_range: LineRange,
    pub lines: Vec<HunkLine>,
}

/// The difference between an old and a new text.
#[derive(Debug)]
pub struct Patch {
    pub old_path: String,
    pub new_path: String,
    pub hunks: Vec<Hunk>,
    /// Whether the new text ends in a newline.
    pub end_newline: bool,
}

/// What a `HunkLine` holds.
pub enum HunkLineView {
    Add(Seq<char>),
    Remove(Seq<char>),
    Context(Seq<char>),
}

/// What a `Hunk` holds.
pub struct HunkView {
    pub old_range: LineRange,
    pub new_range: LineRange,
    pub lines: Seq<HunkLineView>,
}

/// What a `Patch` holds.
pub struct PatchView {
    pub old_path: Seq<char>,
    pub new_path: Seq<char>,
    pub hunks: Seq<HunkView>,
    pub end_newline: bool,
}

impl View for HunkLine {
    type V = HunkLineView;

    open spec fn view(&self) -> HunkLineView {
        match self {
            HunkLine::Add(l) => HunkLineView::Add(l@),
            HunkLine::Remove(l) => HunkLineView::Remove(l@),
            HunkLine::Context(l) => HunkLineView::Context(l@),
        }
    }
}

/// What a list of hunk lines holds.
pub open spec fn line_views(lines: Seq<HunkLine>) -> Seq<HunkLineView> {
    Seq::new(lines.len(), |i: int| lines[i]@)
}

impl View for Hunk {
    type V = HunkView;

    open spec fn view(&self) -> HunkView {
        HunkView {
            old_range: self.old_range,
            new_range: self.new_range,
            lines: line_views(self.lines@),
        }
    }
}

impl View for Patch {
    type V = PatchView;

    open spec fn view(&self) -> PatchView {
        PatchView {
            old_path: self.old_path@,
            new_path: self.new_path@,
            hunks: Seq::new(self.hunks@.len(), |i: int| self.hunks@[i]@),
            end_newline: self.end_newline,
        }
    }
}

impl HunkLineView {
    /// The line, whichever side it belongs to.
    pub open spec fn text(self) -> Seq<char> {
        match self {
            HunkLineView::Add(l) => l,
            HunkLineView::Remove(l) => l,
            HunkLineView::Context(l) => l,
        }
    }
}

/// The lines that the old text has: context and removed ones.
pub open spec fn old_lines(lines: Seq<HunkLineView>) -> Seq<Seq<char>>
    decreases lines.len(),
{
    if lines.len() == 0 {
        Seq::empty()
    } else {
        let before = old_lines(lines.drop_last());
        match lines.last() {
            HunkLineView::Add(_) => before,
            HunkLineView::Remove(l) => before.push(l),
            HunkLineView::Context(l) => before.push(l),
        }
    }
}

/// The lines that the new text has: context and added ones.
pub open spec fn new_lines(lines: Seq<HunkLineView>) -> Seq<Seq<char>>
    decreases lines.len(),
{
    if lines.len() == 0 {
        Seq::empty()
    } else {
        let before = new_lines(lines.drop_last());
        match lines.last() {
            HunkLineView::Add(l) => before.push(l),
            HunkLineView::Remove(_) => before,
            HunkLineView::Context(l) => before.push(l),
        }
    }
}

/// At most `count` of the lines, from line number `first` on (the first line has number one).
pub open spec fn lines_from(src: Seq<Seq<char>>, first: int, count: int) -> Seq<Seq<char>> {
    let from = if first - 1 <= src.len() {
        first - 1
    } else {
        src.len() as int
    };
    let to = if count <= src.len() - from {
        from + count
    } else {
        src.len() as int
    };
    src.subrange(from, to)
}

/// The number of the first line of a range, or, for an empty range, of the line that it lies
/// before.
pub open spec fn first_line(r: LineRange) -> int {
    if r.count == 0 {
        r.start + 1
    } else {
        r.start as int
    }
}

impl HunkView {
    /// The old side of the hunk stands in the lines where the hunk says.
    pub open spec fn old_side_found(self, src: Seq<Seq<char>>) -> bool {
        unlines(lines_from(src, first_line(self.old_range), self.old_range.count as int))
            == unlines(old_lines(self.lines))
    }

    /// The new side of the hunk stands in the lines where the hunk says.
    pub open spec fn new_side_found(self, src: Seq<Seq<char>>) -> bool {
        unlines(lines_from(src, first_line(self.new_range), self.new_range.count as int))
            == unlines(new_lines(self.lines))
    }

    /// The hunk's new side stands in the lines already, and its old side does not.
    pub open spec fn applied_before(self, src: Seq<Seq<char>>) -> bool {
        !self.old_side_found(src) && self.new_side_found(src)
    }

    /// Each range counts the lines of its side.
    pub open spec fn counts_agree(self) -> bool {
        &&& text_lines(unlines(old_lines(self.lines))).len() == self.old_range.count
        &&& text_lines(unlines(new_lines(self.lines))).len() == self.new_range.count
    }
}

/// The number of the line after the old side of the first `k` hunks.
pub open spec fn resume_line(hunks: Seq<HunkView>, k: int) -> int {
    if k <= 0 {
        1
    } else {
        first_line(hunks[k - 1].old_range) + hunks[k - 1].old_range.count
    }
}

impl PatchView {
    /// Hunk `k` lies behind the ones before it, agrees with its counts, and its line numbers
    /// are numbers of lines. A new side with lines in it that starts at line zero names no line,
    /// so it is of use only where the old side stands in the text.
    pub open spec fn hunk_fits(self, k: int, src: Seq<Seq<char>>) -> bool {
        let h = self.hunks[k];
        &&& resume_line(self.hunks, k) <= first_line(h.old_range)
        &&& first_line(h.old_range) + h.old_range.count <= usize::MAX
        &&& first_line(h.new_range) <= usize::MAX
        &&& h.new_range.count <= usize::MAX
        &&& h.counts_agree()
        &&& h.old_side_found(src) || first_line(h.new_range) >= 1
    }

    /// The hunks can be held against a text of these lines.
    pub open spec fn fits(self, src: Seq<Seq<char>>) -> bool {
        forall|k: int| 0 <= k < self.hunks.len() ==> self.hunk_fits(k, src)
    }

    /// The new text up to the end of the first `k` hunks: what lies between the hunks is
    /// kept, and each hunk puts its new side in the place of its old side.
    pub open spec fn patched_lines(self, k: int, src: Seq<Seq<char>>) -> Seq<Seq<char>>
        decreases k,
    {
        if k <= 0 {
            Seq::empty()
        } else {
            let h = self.hunks[k - 1];
            let from = resume_line(self.hunks, k - 1);
            self.patched_lines(k - 1, src) + lines_from(
                src,
                from,
                first_line(h.old_range) - from,
            ) + new_lines(h.lines)
        }
    }

    /// The lines of the new text.
    pub open spec fn output_lines(self, src: Seq<Seq<char>>) -> Seq<Seq<char>> {
        let n = self.hunks.len() as int;
        self.patched_lines(n, src) + lines_from(
            src,
            resume_line(self.hunks, n),
            src.len() as int,
        )
    }

    /// The new text: its lines, the last newline left out where the patch says so.
    pub open spec fn output_text(self, src: Seq<Seq<char>>) -> Seq<char> {
        let all = unlines(self.output_lines(src));
        if !self.end_newline && all.len() > 0 {
            all.drop_last()
        } else {
            all
        }
    }

    /// No line of a hunk holds a character that ends lines.
    pub open spec fn lines_are_single(self) -> bool {
        forall|k: int, i: int|
            0 <= k < self.hunks.len() && 0 <= i < self.hunks[k].lines.len() ==> {
                let line = #[trigger] self.hunks[k].lines[i].text();
                !line.contains('\n') && !line.contains('\r')
            }
    }

    /// The old side of every hunk stands in the text.
    pub open spec fn all_found(self, src: Seq<Seq<char>>) -> bool {
        forall|k: int| 0 <= k < self.hunks.len() ==> self.hunks[k].old_side_found(src)
    }

    /// Every hunk has been applied before.
    pub open spec fn all_applied_before(self, src: Seq<Seq<char>>) -> bool {
        forall|k: int| 0 <= k < self.hunks.len() ==> self.hunks[k].applied_before(src)
    }

    /// What comes of applying the patch to a text of these lines.
    pub open spec fn outcome(self, src: Seq<Seq<char>>) -> Result<Seq<char>, PatchError> {
        if self.all_found(src) {
            Ok(self.output_text(src))
        } else if self.all_applied_before(src) {
            Err(PatchError::AlreadyApplied)
        } else {
            Err(PatchError::OutdatedSource)
        }
    }
}

/// An outcome with its text taken by its contents.
pub open spec fn outcome_view(r: Result<String, PatchError>) -> Result<Seq<char>, PatchError> {
    match r {
        Ok(t) => Ok(t@),
        Err(e) => Err(e),
    }
}

/// Appends at most `count` of the lines from line number `first` on, each with a newline.
fn append_lines(target: &mut String, src: &Vec<String>, first: usize, count: usize)
    requires
        first >= 1,
    ensures
        final(target)@ == old(target)@ + unlines(
            lines_from(texts(src@), first as int, count as int),
        ),
{
    let ghost all = texts(src@);
    let from: usize = if first - 1 <= src.len() {
        first - 1
    } else {
        src.len()
    };
    let to: usize = if count <= src.len() - from {
        from + count
    } else {
        src.len()
    };
    let mut i: usize = from;
    assert(all.subrange(from as int, from as int) =~= Seq::empty());
    assert(target@ =~= old(target)@ + unlines(all.subrange(from as int, from as int)));
    while i < to
        invariant
            from <= i <= to <= src@.len(),
            all == texts(src@),
            target@ == old(target)@ + unlines(all.subrange(from as int, i as int)),
        decreases to - i,
    {
        let ghost done = all.subrange(from as int, i as int);
        target.append(src[i].as_str());
        target.push('\n');
        let ghost next = all.subrange(from as int, i + 1);
        assert(next.drop_last() =~= done);
        assert(next.last() == src@[i as int]@);
        assert(target@ =~= old(target)@ + unlines(next));
        i = i + 1;
    }
}

/// The text of at most `count` of the lines from line number `first` on.
fn text_from(src: &Vec<String>, first: usize, count: usize) -> (r: String)
    requires
        first >= 1,
    ensures
        r@ == unlines(lines_from(texts(src@), first as int, count as int)),
{
    let ghost all = texts(src@);
    let from: usize = if first - 1 <= src.len() {
        first - 1
    } else {
        src.len()
    };
    let to: usize = if count <= src.len() - from {
        from + count
    } else {
        src.len()
    };
    let mut parts: Vec<String> = Vec::new();
    let mut i: usize = from;
    assert(texts(parts@) =~= all.subrange(from as int, from as int));
    while i < to
        invariant
            from <= i <= to <= src@.len(),
            all == texts(src@),
            texts(parts@) == all.subrange(from as int, i as int),
        decreases to - i,
    {
        let ghost before = texts(parts@);
        parts.push(src[i].clone());
        assert(texts(parts@) =~= before.push(src@[i as int]@));
        assert(all.subrange(from as int, i + 1) =~= before.push(src@[i as int]@));
        i = i + 1;
    }
    let ghost before = texts(parts@);
    parts.push(String::new());
    assert(texts(parts@) =~= before.push(Seq::empty()));
    proof {
        lemma_joined_unlines(before);
        reveal_strlit("\n");
        assert("\n"@ =~= seq!['\n']);
    }
    join(&parts, "\n")
}

impl LineRange {
    /// The number of the first line of the range, or, for an empty range, of the line that it
    /// lies before; `None` where that is too large a number.
    fn first(&self) -> (r: Option<usize>)
        ensures
            match r {
                Some(n) => n == first_line(*self),
                None => first_line(*self) > usize::MAX,
            },
    {
        let limit: u64 = usize::MAX as u64;
        if self.start > limit {
            None
        } else if self.count > 0 {
            Some(self.start as usize)
        } else if self.start < limit {
            Some(self.start as usize + 1)
        } else {
            None
        }
    }
}

impl Hunk {
    /// The old side as a text.
    fn old_text(&self) -> (r: String)
        ensures
            r@ == unlines(old_lines(self@.lines)),
    {
        let ghost all = self@.lines;
        let mut out = String::new();
        let mut i: usize = 0;
        while i < self.lines.len()
            invariant
                i <= self.lines@.len(),
                all == self@.lines,
                out@ == unlines(old_lines(all.take(i as int))),
            decreases self.lines.len() - i,
        {
            let ghost done = old_lines(all.take(i as int));
            assert(all.take(i + 1).drop_last() =~= all.take(i as int));
            assert(all.take(i + 1).last() == self.lines@[i as int]@);
            match &self.lines[i] {
                HunkLine::Add(_) => {},
                HunkLine::Remove(l) => {
                    out.append(l.as_str());
                    out.push('\n');
                    assert(done.push(l@).drop_last() =~= done);
                    assert(out@ =~= unlines(done.push(l@)));
                },
                HunkLine::Context(l) => {
                    out.append(l.as_str());
                    out.push('\n');
                    assert(done.push(l@).drop_last() =~= done);
                    assert(out@ =~= unlines(done.push(l@)));
                },
            }
            i = i + 1;
        }
        assert(all.take(i as int) =~= all);
        out
    }

    /// The new side as a text.
    fn new_text(&self) -> (r: String)
        ensures
            r@ == unlines(new_lines(self@.lines)),
    {
        let ghost all = self@.lines;
        let mut out = String::new();
        let mut i: usize = 0;
        while i < self.lines.len()
            invariant
                i <= self.lines@.len(),
                all == self@.lines,
                out@ == unlines(new_lines(all.take(i as int))),
            decreases self.lines.len() - i,
        {
            let ghost done = new_lines(all.take(i as int));
            assert(all.take(i + 1).drop_last() =~= all.take(i as int));
            assert(all.take(i + 1).last() == self.lines@[i as int]@);
            match &self.lines[i] {
                HunkLine::Add(l) => {
                    out.append(l.as_str());
                    out.push('\n');
                    assert(done.push(l@).drop_last() =~= done);
                    assert(out@ =~= unlines(done.push(l@)));
                },
                HunkLine::Remove(_) => {},
                HunkLine::Context(l) => {
                    out.append(l.as_str());
                    out.push('\n');
                    assert(done.push(l@).drop_last() =~= done);
                    assert(out@ =~= unlines(done.push(l@)));
                },
            }
            i = i + 1;
        }
        assert(all.take(i as int) =~= all);
        out
    }

    /// Whether the old side stands in the lines from line number `first` on, where the hunk says
    /// it does.
    fn finds_old_side(&self, src: &Vec<String>, first: usize) -> (r: bool)
        requires
            1 <= first == first_line(self.old_range),
            self.old_range.count <= usize::MAX,
        ensures
            r == self@.old_side_found(texts(src@)),
    {
        text_from(src, first, self.old_range.count as usize) == self.old_text()
    }

    /// Whether the new side stands in the lines from line number `first` on, where the hunk says
    /// it does.
    fn finds_new_side(&self, src: &Vec<String>, first: usize) -> (r: bool)
        requires
            1 <= first == first_line(self.new_range),
            self.new_range.count <= usize::MAX,
        ensures
            r == self@.new_side_found(texts(src@)),
    {
        text_from(src, first, self.new_range.count as usize) == self.new_text()
    }

    /// Whether each range counts the lines of its side.
    fn counts_match(&self) -> (r: bool)
        ensures
            r == self@.counts_agree(),
    {
        let old_side = lines(self.old_text().as_str());
        let new_side = lines(self.new_text().as_str());
        assert(texts(old_side@).len() == old_side@.len());
        assert(texts(new_side@).len() == new_side@.len());
        old_side.len() as u64 == self.old_range.count && new_side.len() as u64
            == self.new_range.count
    }
}

impl Patch {
    /// Whether the hunks can be held against the text: they follow one another, agree with
    /// their counts, and name lines by numbers from one on.
    pub fn fits_text(&self, source: &str) -> (r: bool)
        ensures
            r == self@.fits(text_lines(source@)),
    {
        let src = lines(source);
        let ghost all = text_lines(source@);
        let mut resume: usize = 1;
        let mut k: usize = 0;
        while k < self.hunks.len()
            invariant
                k <= self.hunks@.len(),
                texts(src@) == all,
                all == text_lines(source@),
                resume == resume_line(self@.hunks, k as int),
                resume >= 1,
                forall|j: int| 0 <= j < k ==> self@.hunk_fits(j, all),
            decreases self.hunks.len() - k,
        {
            let next = self.resume_behind(k, resume, &src);
            match next {
                Some(n) => {
                    resume = n;
                },
                None => {
                    assert(!self@.hunk_fits(k as int, all));
                    return false;
                },
            }
            k = k + 1;
        }
        true
    }

    /// The number of the line after the old side of hunk `k`, if the hunk can be held against
    /// the lines behind line number `resume`.
    fn resume_behind(&self, k: usize, resume: usize, src: &Vec<String>) -> (r: Option<usize>)
        requires
            k < self.hunks@.len(),
            1 <= resume == resume_line(self@.hunks, k as int),
        ensures
            match r {
                Some(n) => self@.hunk_fits(k as int, texts(src@)) && n == resume_line(
                    self@.hunks,
                    k + 1,
                ),
                None => !self@.hunk_fits(k as int, texts(src@)),
            },
    {
        let h = &self.hunks[k];
        assert(self@.hunks[k as int] == h@);
        let limit: u64 = usize::MAX as u64;
        match (h.old_range.first(), h.new_range.first()) {
            (Some(old_first), Some(new_first)) => {
                if resume <= old_first && h.old_range.count <= limit - old_first as u64
                    && h.new_range.count <= limit && h.counts_match() && (h.finds_old_side(
                    src,
                    old_first,
                ) || new_first >= 1) {
                    Some(old_first + h.old_range.count as usize)
                } else {
                    None
                }
            },
            _ => None,
        }
    }

    /// The text that comes of the patch: where the old side of every hunk stands in the text,
    /// the new text; where instead every hunk has been applied before, `AlreadyApplied`; else
    /// `OutdatedSource`.
    pub fn apply(&self, source: &str) -> (r: Result<String, PatchError>)
        requires
            self@.fits(text_lines(source@)),
        ensures
            outcome_view(r) == self@.outcome(text_lines(source@)),
    {
        let src = lines(source);
        let ghost all = text_lines(source@);
        let mut target = String::new();
        let mut all_found = true;
        let mut all_applied = true;
        let mut resume: usize = 1;
        let mut k: usize = 0;
        while k < self.hunks.len()
            invariant
                k <= self.hunks@.len(),
                texts(src@) == all,
                self@.fits(all),
                resume == resume_line(self@.hunks, k as int),
                resume >= 1,
                target@ == unlines(self@.patched_lines(k as int, all)),
                all_found == (forall|j: int|
                    0 <= j < k ==> self@.hunks[j].old_side_found(all)),
                all_applied == (forall|j: int|
                    0 <= j < k ==> self@.hunks[j].applied_before(all)),
            decreases self.hunks.len() - k,
        {
            let h = &self.hunks[k];
            assert(self@.hunks[k as int] == h@);
            assert(self@.hunk_fits(k as int, all));
            let ghost done = self@.patched_lines(k as int, all);
            let start: usize = h.old_range.first().unwrap();
            // What lies between the last hunk and this one stays.
            append_lines(&mut target, &src, resume, start - resume);
            let new_side = h.new_text();
            proof {
                let kept = lines_from(all, resume as int, start - resume);
                lemma_unlines_concat(done, kept);
                lemma_unlines_concat(done + kept, new_lines(h@.lines));
            }
            target.append(new_side.as_str());
            if h.finds_old_side(&src, start) {
                all_applied = false;
                assert(!self@.hunks[k as int].applied_before(all));
            } else {
                all_found = false;
                assert(!self@.hunks[k as int].old_side_found(all));
                if !h.finds_new_side(&src, h.new_range.first().unwrap()) {
                    all_applied = false;
                    assert(!self@.hunks[k as int].applied_before(all));
                }
            }
            resume = start + h.old_range.count as usize;
            k = k + 1;
        }
        append_lines(&mut target, &src, resume, src.len());
        proof {
            lemma_unlines_concat(
                self@.patched_lines(k as int, all),
                lines_from(all, resume as int, all.len() as int),
            );
        }
        if !self.end_newline {
            target.pop();
        }
        if all_found {
            Ok(target)
        } else if all_applied {
            Err(PatchError::AlreadyApplied)
        } else {
            Err(PatchError::OutdatedSource)
        }
    }
}

} // verus!
