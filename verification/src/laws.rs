//! What holds of patches as a whole.
use vstd::prelude::*;

#[allow(unused_imports)]
use crate::patch::{
    first_line, lines_from, new_lines, old_lines, outcome_view, resume_line, HunkLine,
    HunkLineView, HunkView, LineRange, Patch, PatchError, PatchView,
};
#[allow(unused_imports)]
use crate::text::{
    law_unlines_ends_every_line, lemma_split_extend, lemma_split_parts, lemma_split_unlines, lemma_text_lines_unlines, split,
    text_lines, unlines, without_cr,
};

verus! {

/// No line holds a newline.
pub open spec fn no_newlines(lines: Seq<Seq<char>>) -> bool {
    forall|i: int| 0 <= i < lines.len() ==> !(#[trigger] lines[i]).contains('\n')
}

/// No line holds a character that ends lines.
pub open spec fn no_line_ends(lines: Seq<Seq<char>>) -> bool {
    forall|i: int|
        0 <= i < lines.len() ==> !(#[trigger] lines[i]).contains('\n') && !lines[i].contains('\r')
}

/// The lines of a text hold no newline.
pub proof fn lemma_text_lines_single(s: Seq<char>)
    ensures
        no_newlines(text_lines(s)),
{
    let parts = split(s, '\n');
    lemma_split_parts(s, '\n');
    assert forall|i: int| 0 <= i < text_lines(s).len() implies !(#[trigger] text_lines(
        s,
    )[i]).contains('\n') by {
        let line = text_lines(s)[i];
        assert(!parts[i].contains('\n'));
        if line.contains('\n') {
            let k = choose|k: int| 0 <= k < line.len() && line[k] == '\n';
            assert(parts[i][k] == '\n');
        }
    }
}

/// The sides of a hunk hold the hunk's lines.
proof fn lemma_sides_single(lines: Seq<HunkLineView>)
    requires
        forall|i: int|
            0 <= i < lines.len() ==> {
                let l = #[trigger] lines[i].text();
                !l.contains('\n') && !l.contains('\r')
            },
    ensures
        no_line_ends(old_lines(lines)),
        no_line_ends(new_lines(lines)),
    decreases lines.len(),
{
    if lines.len() > 0 {
        let init = lines.drop_last();
        assert forall|i: int| 0 <= i < init.len() implies {
            let l = #[trigger] init[i].text();
            !l.contains('\n') && !l.contains('\r')
        } by {
            assert(init[i].text() == lines[i].text());
        }
        lemma_sides_single(init);
        let l = lines[lines.len() - 1].text();
        assert(!l.contains('\n') && !l.contains('\r'));
    }
}

/// A text of single lines has as many lines as it was made of.
proof fn lemma_line_count(lines: Seq<Seq<char>>)
    requires
        no_newlines(lines),
    ensures
        text_lines(unlines(lines)).len() == lines.len(),
{
    lemma_text_lines_unlines(lines);
}

/// Two lists of single lines that make the same text are the same.
proof fn lemma_unlines_injective(a: Seq<Seq<char>>, b: Seq<Seq<char>>)
    requires
        no_newlines(a),
        no_newlines(b),
        unlines(a) == unlines(b),
    ensures
        a == b,
{
    lemma_split_unlines(a);
    lemma_split_unlines(b);
    assert(a =~= a.push(Seq::empty()).drop_last());
    assert(b =~= b.push(Seq::empty()).drop_last());
}

impl PatchView {
    /// The lines that hunk `k` leaves alone between the hunk before it and itself.
    pub open spec fn kept_before(self, k: int, src: Seq<Seq<char>>) -> Seq<Seq<char>> {
        let from = resume_line(self.hunks, k);
        lines_from(src, from, first_line(self.hunks[k].old_range) - from)
    }

    /// The number, in the new text, of the first line of the new side of hunk `k`.
    pub open spec fn new_position(self, k: int, src: Seq<Seq<char>>) -> int {
        (self.patched_lines(k, src).len() + self.kept_before(k, src).len() + 1) as int
    }

    /// Every new range with lines in it starts where the new side comes to stand.
    pub open spec fn new_ranges_agree(self, src: Seq<Seq<char>>) -> bool {
        forall|k: int|
            0 <= k < self.hunks.len() && new_lines(self.hunks[k].lines).len() > 0
                ==> #[trigger] self.hunks[k].new_range.start == self.new_position(k, src)
    }

    /// By how many lines the first `k` hunks lengthen the text.
    pub open spec fn growth(self, k: int) -> int
        decreases k,
    {
        if k <= 0 {
            0
        } else {
            self.growth(k - 1) + self.hunks[k - 1].new_range.count - self.hunks[k
                - 1].old_range.count
        }
    }

    /// No hunk without lines on its old side lies behind the end of the text.
    pub open spec fn starts_in_text(self, src: Seq<Seq<char>>) -> bool {
        forall|k: int|
            0 <= k < self.hunks.len() && (#[trigger] self.hunks[k]).old_range.count == 0
                ==> self.hunks[k].old_range.start <= src.len()
    }

    /// The sides of hunk `k` are single lines, as many as its ranges count.
    proof fn lemma_hunk_sides(self, k: int, src: Seq<Seq<char>>)
        requires
            self.lines_are_single(),
            self.fits(src),
            0 <= k < self.hunks.len(),
        ensures
            no_line_ends(old_lines(self.hunks[k].lines)),
            no_line_ends(new_lines(self.hunks[k].lines)),
            old_lines(self.hunks[k].lines).len() == self.hunks[k].old_range.count,
            new_lines(self.hunks[k].lines).len() == self.hunks[k].new_range.count,
    {
        let h = self.hunks[k];
        assert forall|i: int| 0 <= i < h.lines.len() implies {
            let l = #[trigger] h.lines[i].text();
            !l.contains('\n') && !l.contains('\r')
        } by {
            assert(self.hunks[k].lines[i].text() == h.lines[i].text());
        }
        lemma_sides_single(h.lines);
        assert(self.hunk_fits(k, src));
        lemma_line_count(old_lines(h.lines));
        lemma_line_count(new_lines(h.lines));
    }

    /// A hunk whose old side is found stands there line by line.
    proof fn lemma_found(self, k: int, src: Seq<Seq<char>>)
        requires
            self.lines_are_single(),
            self.fits(src),
            self.all_found(src),
            no_newlines(src),
            0 <= k < self.hunks.len(),
        ensures
            lines_from(
                src,
                first_line(self.hunks[k].old_range),
                self.hunks[k].old_range.count as int,
            ) == old_lines(self.hunks[k].lines),
            resume_line(self.hunks, k) >= 1,
            self.hunks[k].old_range.count > 0 ==> self.hunks[k].old_range.start
                + self.hunks[k].old_range.count <= src.len() + 1,
    {
        let h = self.hunks[k];
        self.lemma_hunk_sides(k, src);
        self.lemma_resume(k, src);
        assert(self.hunk_fits(k, src));
        assert(h.old_side_found(src));
        let w = lines_from(src, first_line(h.old_range), h.old_range.count as int);
        assert(no_newlines(w));
        lemma_unlines_injective(w, old_lines(h.lines));
    }

    /// Line numbers count from one.
    proof fn lemma_resume(self, k: int, src: Seq<Seq<char>>)
        requires
            self.fits(src),
            0 <= k <= self.hunks.len(),
        ensures
            resume_line(self.hunks, k) >= 1,
        decreases k,
    {
        if k > 0 {
            self.lemma_resume(k - 1, src);
            assert(self.hunk_fits(k - 1, src));
        }
    }

    /// The lines up to the first `k` hunks stand at the beginning of the new text.
    proof fn lemma_prefix(self, k: int, m: int, src: Seq<Seq<char>>)
        requires
            0 <= k <= m,
        ensures
            self.patched_lines(k, src).len() <= self.patched_lines(m, src).len(),
            self.patched_lines(m, src).take(self.patched_lines(k, src).len() as int)
                == self.patched_lines(k, src),
        decreases m,
    {
        if k < m {
            self.lemma_prefix(k, m - 1, src);
            assert(self.patched_lines(m, src).take(self.patched_lines(k, src).len() as int)
                =~= self.patched_lines(m - 1, src).take(self.patched_lines(k, src).len() as int));
        } else {
            assert(self.patched_lines(m, src).take(self.patched_lines(k, src).len() as int)
                =~= self.patched_lines(k, src));
        }
    }

    /// The new side of hunk `k` stands at its position among the lines of the new text.
    proof fn lemma_new_side_placed(self, k: int, src: Seq<Seq<char>>)
        requires
            0 <= k < self.hunks.len(),
        ensures
            ({
                let out = self.output_lines(src);
                let new = new_lines(self.hunks[k].lines);
                let at = self.new_position(k, src) - 1;
                &&& 0 <= at
                &&& at + new.len() <= out.len()
                &&& out.subrange(at, at + new.len()) == new
            }),
    {
        let out = self.output_lines(src);
        let new = new_lines(self.hunks[k].lines);
        let at = self.new_position(k, src) - 1;
        let upto = self.patched_lines(k + 1, src);
        self.lemma_prefix(k + 1, self.hunks.len() as int, src);
        assert(upto.len() == at + new.len());
        assert(out.take(upto.len() as int) =~= upto);
        assert(out.subrange(at, at + new.len()) =~= upto.subrange(at, at + new.len()));
        assert(upto.subrange(at, at + new.len()) =~= new);
    }

    /// The lines of the new text hold no newline.
    proof fn lemma_patched_single(self, k: int, src: Seq<Seq<char>>)
        requires
            self.lines_are_single(),
            no_newlines(src),
            0 <= k <= self.hunks.len(),
            forall|j: int|
                0 <= j < k ==> 1 <= resume_line(self.hunks, j) <= first_line(
                    (#[trigger] self.hunks[j]).old_range,
                ),
        ensures
            no_newlines(self.patched_lines(k, src)),
        decreases k,
    {
        if k > 0 {
            self.lemma_patched_single(k - 1, src);
            let h = self.hunks[k - 1];
            assert forall|i: int| 0 <= i < h.lines.len() implies {
                let l = #[trigger] h.lines[i].text();
                !l.contains('\n') && !l.contains('\r')
            } by {
                assert(self.hunks[k - 1].lines[i].text() == h.lines[i].text());
            }
            lemma_sides_single(h.lines);
            let kept = self.kept_before(k - 1, src);
            assert(no_newlines(kept));
        }
    }

    /// The lines of the new text, read back from it: a last line without characters and
    /// without a newline is no line, and a carriage return at the end of a kept line belongs
    /// to the line end.
    proof fn lemma_output_read_back(self, source: Seq<char>)
        requires
            self.lines_are_single(),
            self.fits(text_lines(source)),
        ensures
            ({
                let src = text_lines(source);
                let out = self.output_lines(src);
                let back = text_lines(self.output_text(src));
                let lost = !self.end_newline && out.len() > 0 && out.last().len() == 0;
                &&& no_newlines(out)
                &&& back.len() == out.len() - if lost {
                    1int
                } else {
                    0
                }
                &&& forall|i: int|
                    0 <= i < back.len() && !out[i].contains('\r') ==> #[trigger] back[i] == out[i]
            }),
    {
        let src = text_lines(source);
        let out = self.output_lines(src);
        let n = self.hunks.len() as int;
        lemma_text_lines_single(source);
        assert forall|j: int| 0 <= j < n implies 1 <= resume_line(self.hunks, j) <= first_line(
            (#[trigger] self.hunks[j]).old_range,
        ) by {
            self.lemma_resume(j, src);
            assert(self.hunk_fits(j, src));
        }
        self.lemma_resume(n, src);
        self.lemma_patched_single(n, src);
        let tail = lines_from(src, resume_line(self.hunks, n), src.len() as int);
        assert(no_newlines(tail));
        assert(no_newlines(out));
        assert forall|l: Seq<char>| !l.contains('\r') implies #[trigger] without_cr(l) == l by {
            if l.len() > 0 && l.last() == '\r' {
                assert(l[l.len() - 1] == '\r');
            }
        }
        if self.end_newline || out.len() == 0 {
            lemma_text_lines_unlines(out);
            if out.len() == 0 {
                assert(unlines(out).len() == 0);
            }
        } else {
            let init = out.drop_last();
            let last = out.last();
            assert(no_newlines(init));
            assert(!out[out.len() - 1].contains('\n'));
            lemma_split_unlines(init);
            assert(unlines(out).drop_last() =~= unlines(init) + last);
            lemma_split_extend(unlines(init), last, '\n');
            assert(init.push(Seq::<char>::empty()).drop_last() =~= init);
            assert(Seq::<char>::empty() + last =~= last);
            assert(split(self.output_text(src), '\n') =~= out);
        }
    }

    /// The first `k` hunks and what lies before them make as many lines as they do in the old
    /// text, and `growth` more.
    proof fn lemma_patched_length(self, k: int, src: Seq<Seq<char>>)
        requires
            self.lines_are_single(),
            self.fits(src),
            self.all_found(src),
            self.starts_in_text(src),
            no_newlines(src),
            0 <= k <= self.hunks.len(),
        ensures
            self.patched_lines(k, src).len() == resume_line(self.hunks, k) - 1 + self.growth(k),
            1 <= resume_line(self.hunks, k) <= src.len() + 1,
        decreases k,
    {
        if k > 0 {
            self.lemma_patched_length(k - 1, src);
            self.lemma_hunk_sides(k - 1, src);
            self.lemma_found(k - 1, src);
            assert(self.hunk_fits(k - 1, src));
        }
    }

    /// Where every line of the first `k` hunks is context, the new text starts as the old.
    proof fn lemma_context_prefix(self, k: int, src: Seq<Seq<char>>)
        requires
            self.lines_are_single(),
            self.fits(src),
            self.all_found(src),
            no_newlines(src),
            0 <= k <= self.hunks.len(),
            forall|j: int, i: int|
                0 <= j < self.hunks.len() && 0 <= i < self.hunks[j].lines.len()
                    ==> #[trigger] self.hunks[j].lines[i] is Context,
        ensures
            ({
                let end = resume_line(self.hunks, k) - 1;
                self.patched_lines(k, src) == src.take(
                    if end <= src.len() {
                        end
                    } else {
                        src.len() as int
                    },
                )
            }),
            resume_line(self.hunks, k) >= 1,
        decreases k,
    {
        if k == 0 {
            assert(src.take(0) =~= Seq::empty());
        } else {
            self.lemma_context_prefix(k - 1, src);
            self.lemma_found(k - 1, src);
            assert(self.hunk_fits(k - 1, src));
            let h = self.hunks[k - 1];
            assert forall|i: int| 0 <= i < h.lines.len() implies #[trigger] h.lines[i]
                is Context by {
                assert(self.hunks[k - 1].lines[i] is Context);
            }
            lemma_context_sides(h.lines);
            let end = resume_line(self.hunks, k) - 1;
            let to = if end <= src.len() {
                end
            } else {
                src.len() as int
            };
            assert(self.patched_lines(k, src) =~= src.take(to));
        }
    }
}

/// The sides of a hunk of context lines are the same.
proof fn lemma_context_sides(lines: Seq<HunkLineView>)
    requires
        forall|i: int| 0 <= i < lines.len() ==> #[trigger] lines[i] is Context,
    ensures
        old_lines(lines) == new_lines(lines),
    decreases lines.len(),
{
    if lines.len() > 0 {
        let init = lines.drop_last();
        assert forall|i: int| 0 <= i < init.len() implies #[trigger] init[i] is Context by {
            assert(lines[i] is Context);
        }
        lemma_context_sides(init);
        assert(lines[lines.len() - 1] is Context);
    }
}

/// The new text is made of the output lines and gives them back: it has as many lines, except
/// that a last line without characters and without a newline is no line; and each line that
/// holds no carriage return is the same.
pub proof fn law_new_text_gives_its_lines_back(p: PatchView, source: Seq<char>)
    requires
        p.lines_are_single(),
        p.fits(text_lines(source)),
        p.outcome(text_lines(source)) is Ok,
    ensures
        ({
            let out = p.output_lines(text_lines(source));
            let back = text_lines(p.outcome(text_lines(source))->Ok_0);
            let lost = !p.end_newline && out.len() > 0 && out.last().len() == 0;
            &&& back.len() == out.len() - if lost {
                1int
            } else {
                0
            }
            &&& forall|i: int|
                0 <= i < back.len() && !out[i].contains('\r') ==> #[trigger] back[i] == out[i]
        }),
{
    p.lemma_output_read_back(source);
}

/// A patch that was applied is found applied: where the new ranges of a patch say where its
/// new sides come to stand, every new side stands in the new text, and applying the patch to
/// the new text gives `AlreadyApplied` if and only if the patch has hunks and no hunk's old
/// side stands in the new text where the hunk looks for it. Left out is a new text whose last
/// line is one of a hunk's, has no characters and no newline, and so is no line at all.
#[verifier::rlimit(30)]
pub proof fn law_applied_patch_is_found_applied(p: PatchView, source: Seq<char>)
    requires
        p.lines_are_single(),
        p.fits(text_lines(source)),
        p.outcome(text_lines(source)) is Ok,
        p.new_ranges_agree(text_lines(source)),
        p.fits(text_lines(p.outcome(text_lines(source))->Ok_0)),
        !p.end_newline && p.output_lines(text_lines(source)).len() > 0 && p.output_lines(
            text_lines(source),
        ).last().len() == 0 ==> forall|k: int|
            0 <= k < p.hunks.len() && new_lines(p.hunks[k].lines).len() > 0 ==> (#[trigger]
            p.new_position(k, text_lines(source))) - 1 + new_lines(p.hunks[k].lines).len()
                < p.output_lines(text_lines(source)).len(),
    ensures
        ({
            let new_text = text_lines(p.outcome(text_lines(source))->Ok_0);
            &&& forall|k: int|
                0 <= k < p.hunks.len() && first_line((#[trigger] p.hunks[k]).new_range) >= 1
                    ==> p.hunks[k].new_side_found(new_text)
            &&& p.outcome(new_text) == Err::<Seq<char>, PatchError>(PatchError::AlreadyApplied)
                <==> p.hunks.len() > 0 && forall|k: int|
                0 <= k < p.hunks.len() ==> !(#[trigger] p.hunks[k]).old_side_found(new_text)
        }),
{
    let src = text_lines(source);
    let out = p.output_lines(src);
    let back = text_lines(p.output_text(src));
    assert(p.outcome(src) == Ok::<Seq<char>, PatchError>(p.output_text(src)));
    p.lemma_output_read_back(source);
    assert forall|k: int|
        0 <= k < p.hunks.len() && first_line((#[trigger] p.hunks[k]).new_range) >= 1 implies
        p.hunks[k].new_side_found(back) by {
        let h = p.hunks[k];
        let new = new_lines(h.lines);
        p.lemma_hunk_sides(k, src);
        let window = lines_from(back, first_line(h.new_range), h.new_range.count as int);
        if new.len() == 0 {
            assert(window =~= new);
        } else {
            p.lemma_new_side_placed(k, src);
            let at = p.new_position(k, src) - 1;
            assert(h.new_range.start == at + 1);
            assert forall|i: int| 0 <= i < new.len() implies back[at + i] == #[trigger] new[i] by {
                assert(out.subrange(at, at + new.len())[i] == new[i]);
                assert(out[at + i] == new[i]);
            }
            assert(window =~= new);
        }
    }
    if p.outcome(back) == Err::<Seq<char>, PatchError>(PatchError::AlreadyApplied) {
        assert forall|k: int| 0 <= k < p.hunks.len() implies !(
        #[trigger] p.hunks[k]).old_side_found(back) by {
            assert(p.hunks[k].applied_before(back));
        }
    }
    if p.hunks.len() > 0 && forall|k: int|
        0 <= k < p.hunks.len() ==> !(#[trigger] p.hunks[k]).old_side_found(back) {
        assert(!p.hunks[0].old_side_found(back));
        assert forall|k: int| 0 <= k < p.hunks.len() implies p.hunks[k].applied_before(back) by {
            assert(p.hunk_fits(k, back));
        }
    }
}

/// A patch that applies lengthens the text by what its ranges say. Left out are hunks that
/// insert lines behind the end of the text, which end up at its end.
pub proof fn law_line_count(p: PatchView, source: Seq<char>)
    requires
        p.lines_are_single(),
        p.fits(text_lines(source)),
        p.outcome(text_lines(source)) is Ok,
        p.starts_in_text(text_lines(source)),
    ensures
        p.output_lines(text_lines(source)).len() == text_lines(source).len() + p.growth(
            p.hunks.len() as int,
        ),
{
    let src = text_lines(source);
    lemma_text_lines_single(source);
    p.lemma_patched_length(p.hunks.len() as int, src);
}

/// A patch that applies leaves every line between its hunks as it is: line `i` of the old text
/// (counted from zero), which lies behind the first `k` hunks and before the next one, is line
/// `i` of the new text, moved by what those hunks lengthen the text. Left out are hunks that
/// insert lines behind the end of the text.
pub proof fn law_lines_between_hunks_stay(p: PatchView, source: Seq<char>, k: int, i: int)
    requires
        p.lines_are_single(),
        p.fits(text_lines(source)),
        p.outcome(text_lines(source)) is Ok,
        p.starts_in_text(text_lines(source)),
        0 <= k <= p.hunks.len(),
        resume_line(p.hunks, k) - 1 <= i < text_lines(source).len(),
        k < p.hunks.len() ==> i < first_line(p.hunks[k].old_range) - 1,
    ensures
        0 <= i + p.growth(k) < p.output_lines(text_lines(source)).len(),
        p.output_lines(text_lines(source))[i + p.growth(k)] == text_lines(source)[i],
{
    let src = text_lines(source);
    let out = p.output_lines(src);
    let n = p.hunks.len() as int;
    lemma_text_lines_single(source);
    p.lemma_patched_length(k, src);
    let at = p.patched_lines(k, src).len();
    let within = i - (resume_line(p.hunks, k) - 1);
    assert(i + p.growth(k) == at + within);
    if k < n {
        let upto = p.patched_lines(k + 1, src);
        p.lemma_prefix(k + 1, n, src);
        assert(out.take(upto.len() as int) =~= upto);
        let kept = p.kept_before(k, src);
        assert(kept[within] == src[i]);
        assert(upto[at + within] == src[i]);
        assert(out.take(upto.len() as int)[at + within] == out[at + within]);
    }
}

/// A patch of context lines alone, where it applies, keeps every line of the text.
pub proof fn law_context_changes_nothing(p: PatchView, source: Seq<char>)
    requires
        p.lines_are_single(),
        p.fits(text_lines(source)),
        p.outcome(text_lines(source)) is Ok,
        forall|k: int, i: int|
            0 <= k < p.hunks.len() && 0 <= i < p.hunks[k].lines.len()
                ==> #[trigger] p.hunks[k].lines[i] is Context,
    ensures
        p.output_lines(text_lines(source)) == text_lines(source),
{
    let src = text_lines(source);
    lemma_text_lines_single(source);
    p.lemma_context_prefix(p.hunks.len() as int, src);
    assert(p.output_lines(src) =~= src);
}

/// Only the lines of a text decide what comes of a patch: its line ends, and whether the last
/// line has one, do not.
pub proof fn law_line_ends_do_not_matter(p: PatchView, lines: Seq<Seq<char>>)
    requires
        no_line_ends(lines),
    ensures
        p.outcome(text_lines(unlines(lines))) == p.outcome(lines),
        p.outcome(text_lines(crlf_text(lines))) == p.outcome(lines),
        lines.len() > 0 && lines.last().len() > 0 ==> p.outcome(
            text_lines(unlines(lines).drop_last()),
        ) == p.outcome(lines),
{
    lemma_text_lines_unlines(lines);
    lemma_without_cr_all(lines);
    let with_cr = lines.map_values(|l: Seq<char>| l.push('\r'));
    assert forall|i: int| 0 <= i < with_cr.len() implies !(#[trigger] with_cr[i]).contains(
        '\n',
    ) by {
        let l = lines[i];
        assert(!l.contains('\n'));
        assert(with_cr[i] == l.push('\r'));
        if with_cr[i].contains('\n') {
            let j = choose|j: int| 0 <= j < with_cr[i].len() && with_cr[i][j] == '\n';
            assert(l[j] == '\n');
        }
    }
    lemma_text_lines_unlines(with_cr);
    assert(with_cr.map_values(|l: Seq<char>| without_cr(l)) =~= lines) by {
        assert forall|i: int| 0 <= i < lines.len() implies without_cr(#[trigger] with_cr[i])
            == lines[i] by {
            assert(lines[i].push('\r').drop_last() =~= lines[i]);
        }
    }
    if lines.len() > 0 && lines.last().len() > 0 {
        let init = lines.drop_last();
        let last = lines.last();
        assert(no_newlines(init));
        assert(!lines[lines.len() - 1].contains('\n'));
        lemma_split_unlines(init);
        assert(unlines(lines).drop_last() =~= unlines(init) + last);
        lemma_split_extend(unlines(init), last, '\n');
        assert(init.push(Seq::<char>::empty()).drop_last() =~= init);
        assert(Seq::<char>::empty() + last =~= last);
        assert(split(unlines(lines).drop_last(), '\n') =~= lines);
        lemma_without_cr_all(init);
        assert(text_lines(unlines(lines).drop_last()) =~= lines);
    }
}

/// The text made of the given lines, each followed by a carriage return and a newline.
pub open spec fn crlf_text(lines: Seq<Seq<char>>) -> Seq<char> {
    unlines(lines.map_values(|l: Seq<char>| l.push('\r')))
}

/// A line without carriage returns has none to lose.
proof fn lemma_without_cr_all(lines: Seq<Seq<char>>)
    requires
        no_line_ends(lines),
    ensures
        lines.map_values(|l: Seq<char>| without_cr(l)) == lines,
{
    assert forall|i: int| 0 <= i < lines.len() implies without_cr(#[trigger] lines[i])
        == lines[i] by {
        let l = lines[i];
        if l.len() > 0 && l.last() == '\r' {
            assert(l[l.len() - 1] == '\r');
        }
    }
    assert(lines.map_values(|l: Seq<char>| without_cr(l)) =~= lines);
}

/// The range of the text holds the given lines.
pub open spec fn shows(text: Seq<Seq<char>>, r: LineRange, lines: Seq<Seq<char>>) -> bool {
    &&& 1 <= first_line(r)
    &&& first_line(r) - 1 + r.count <= text.len()
    &&& text.subrange(first_line(r) - 1, first_line(r) - 1 + r.count) == lines
}

/// No carriage return stands before a newline.
pub open spec fn no_crlf(s: Seq<char>) -> bool {
    forall|i: int| 0 <= i < s.len() - 1 && s[i] == '\r' ==> #[trigger] s[i + 1] != '\n'
}

/// The hunk with its old and its new side exchanged.
pub open spec fn reversed_hunk(h: HunkView) -> HunkView {
    HunkView {
        old_range: h.new_range,
        new_range: h.old_range,
        lines: h.lines.map_values(|l: HunkLineView| reversed_line(l)),
    }
}

/// The line with what is added and what is removed exchanged.
pub open spec fn reversed_line(l: HunkLineView) -> HunkLineView {
    match l {
        HunkLineView::Add(t) => HunkLineView::Remove(t),
        HunkLineView::Remove(t) => HunkLineView::Add(t),
        HunkLineView::Context(t) => HunkLineView::Context(t),
    }
}

impl PatchView {
    /// The number of the line after the new side of the first `k` hunks.
    pub open spec fn new_resume_line(self, k: int) -> int {
        if k <= 0 {
            1
        } else {
            first_line(self.hunks[k - 1].new_range) + self.hunks[k - 1].new_range.count
        }
    }

    /// The old range of hunk `k` holds its old side in the old text, the new range its new side
    /// in the new text, and the lines before the hunk, back to the one before it, are the same.
    pub open spec fn hunk_describes(
        self,
        k: int,
        old_text: Seq<Seq<char>>,
        new_text: Seq<Seq<char>>,
    ) -> bool {
        let h = self.hunks[k];
        let old_from = resume_line(self.hunks, k);
        let new_from = self.new_resume_line(k);
        &&& shows(old_text, h.old_range, old_lines(h.lines))
        &&& shows(new_text, h.new_range, new_lines(h.lines))
        &&& old_from <= first_line(h.old_range)
        &&& new_from <= first_line(h.new_range)
        &&& old_text.subrange(old_from - 1, first_line(h.old_range) - 1) == new_text.subrange(
            new_from - 1,
            first_line(h.new_range) - 1,
        )
    }

    /// The patch describes the change from the old to the new text: every hunk does, and the
    /// lines behind the last hunk are the same.
    pub open spec fn describes(self, old_text: Seq<Seq<char>>, new_text: Seq<Seq<char>>) -> bool {
        let n = self.hunks.len() as int;
        &&& forall|k: int| 0 <= k < n ==> self.hunk_describes(k, old_text, new_text)
        &&& old_text.skip(resume_line(self.hunks, n) - 1) == new_text.skip(
            self.new_resume_line(n) - 1,
        )
    }

    /// The patch with its old and its new side exchanged.
    pub open spec fn reversed(self) -> PatchView {
        PatchView {
            old_path: self.new_path,
            new_path: self.old_path,
            hunks: self.hunks.map_values(|h: HunkView| reversed_hunk(h)),
            end_newline: self.end_newline,
        }
    }

    /// Every new range starts where its old range does, moved by what the hunks before it
    /// lengthen the text.
    pub open spec fn ranges_in_step(self) -> bool {
        forall|k: int|
            0 <= k < self.hunks.len() ==> first_line((#[trigger] self.hunks[k]).new_range)
                == first_line(self.hunks[k].old_range) + self.growth(k)
    }

    /// The lines behind the first `k` hunks start inside both texts.
    proof fn lemma_described_bounds(
        self,
        k: int,
        old_text: Seq<Seq<char>>,
        new_text: Seq<Seq<char>>,
    )
        requires
            self.describes(old_text, new_text),
            0 <= k <= self.hunks.len(),
        ensures
            1 <= resume_line(self.hunks, k) <= old_text.len() + 1,
            1 <= self.new_resume_line(k) <= new_text.len() + 1,
    {
        if k > 0 {
            assert(self.hunk_describes(k - 1, old_text, new_text));
        }
    }

    /// A patch that describes a change makes the new text, hunk by hunk.
    proof fn lemma_described_prefix(
        self,
        k: int,
        old_text: Seq<Seq<char>>,
        new_text: Seq<Seq<char>>,
    )
        requires
            self.describes(old_text, new_text),
            0 <= k <= self.hunks.len(),
        ensures
            self.patched_lines(k, old_text) == new_text.take(self.new_resume_line(k) - 1),
        decreases k,
    {
        if k == 0 {
            assert(new_text.take(0) =~= Seq::empty());
        } else {
            self.lemma_described_prefix(k - 1, old_text, new_text);
            self.lemma_described_bounds(k - 1, old_text, new_text);
            assert(self.hunk_describes(k - 1, old_text, new_text));
            let h = self.hunks[k - 1];
            let from = resume_line(self.hunks, k - 1);
            let kept = lines_from(old_text, from, first_line(h.old_range) - from);
            assert(kept =~= old_text.subrange(from - 1, first_line(h.old_range) - 1));
            assert(self.patched_lines(k, old_text) =~= new_text.take(
                self.new_resume_line(k) - 1,
            ));
        }
    }

    /// A patch that describes the change between two texts applies to the old one and makes the
    /// lines of the new one.
    proof fn lemma_described(self, old_text: Seq<Seq<char>>, new_text: Seq<Seq<char>>)
        requires
            self.describes(old_text, new_text),
            no_newlines(old_text),
            no_newlines(new_text),
            old_text.len() < usize::MAX,
            new_text.len() < usize::MAX,
        ensures
            self.fits(old_text),
            self.all_found(old_text),
            self.output_lines(old_text) == new_text,
    {
        let n = self.hunks.len() as int;
        assert forall|k: int| 0 <= k < n implies #[trigger] self.hunks[k].old_side_found(
            old_text,
        ) by {
            assert(self.hunk_describes(k, old_text, new_text));
            let h = self.hunks[k];
            let window = lines_from(old_text, first_line(h.old_range), h.old_range.count as int);
            assert(window =~= old_lines(h.lines));
        }
        assert forall|k: int| 0 <= k < n implies self.hunk_fits(k, old_text) by {
            assert(self.hunk_describes(k, old_text, new_text));
            let h = self.hunks[k];
            assert(h.old_side_found(old_text));
            assert forall|i: int| 0 <= i < old_lines(h.lines).len() implies !(
            #[trigger] old_lines(h.lines)[i]).contains('\n') by {
                assert(old_lines(h.lines)[i] == old_text[first_line(h.old_range) - 1 + i]);
            }
            assert forall|i: int| 0 <= i < new_lines(h.lines).len() implies !(
            #[trigger] new_lines(h.lines)[i]).contains('\n') by {
                assert(new_lines(h.lines)[i] == new_text[first_line(h.new_range) - 1 + i]);
            }
            lemma_line_count(old_lines(h.lines));
            lemma_line_count(new_lines(h.lines));
        }
        self.lemma_described_prefix(n, old_text, new_text);
        self.lemma_described_bounds(n, old_text, new_text);
        let tail = lines_from(old_text, resume_line(self.hunks, n), old_text.len() as int);
        assert(tail =~= old_text.skip(resume_line(self.hunks, n) - 1));
        assert(self.output_lines(old_text) =~= new_text);
    }

    /// The reversed patch describes the change back.
    proof fn lemma_described_back(self, old_text: Seq<Seq<char>>, new_text: Seq<Seq<char>>)
        requires
            self.describes(old_text, new_text),
        ensures
            self.reversed().describes(new_text, old_text),
    {
        let r = self.reversed();
        let n = self.hunks.len() as int;
        assert forall|k: int| 0 <= k < n implies r.hunk_describes(k, new_text, old_text) by {
            assert(self.hunk_describes(k, old_text, new_text));
            assert(r.hunks[k] == reversed_hunk(self.hunks[k]));
            lemma_reversed_sides(self.hunks[k].lines);
        }
    }

    /// Where the ranges are in step, the new ranges count the lines that the patch makes.
    proof fn lemma_in_step(self, k: int, src: Seq<Seq<char>>)
        requires
            self.lines_are_single(),
            self.fits(src),
            self.all_found(src),
            self.starts_in_text(src),
            self.ranges_in_step(),
            no_newlines(src),
            0 <= k <= self.hunks.len(),
        ensures
            self.new_resume_line(k) == self.patched_lines(k, src).len() + 1,
            1 <= resume_line(self.hunks, k) <= src.len() + 1,
    {
        self.lemma_patched_length(k, src);
        if k > 0 {
            let h = self.hunks[k - 1];
            assert(first_line(h.new_range) == first_line(h.old_range) + self.growth(k - 1));
        }
    }

    /// The old range of hunk `k` holds its old side, behind the hunks before it.
    proof fn lemma_old_side_shown(self, k: int, src: Seq<Seq<char>>)
        requires
            self.lines_are_single(),
            self.fits(src),
            self.all_found(src),
            self.starts_in_text(src),
            no_newlines(src),
            0 <= k < self.hunks.len(),
        ensures
            shows(src, self.hunks[k].old_range, old_lines(self.hunks[k].lines)),
            1 <= resume_line(self.hunks, k) <= first_line(self.hunks[k].old_range),
    {
        let r = self.hunks[k].old_range;
        self.lemma_found(k, src);
        assert(self.hunk_fits(k, src));
        assert(first_line(r) - 1 + r.count <= src.len());
        assert(lines_from(src, first_line(r), r.count as int) =~= src.subrange(
            first_line(r) - 1,
            first_line(r) - 1 + r.count,
        ));
    }

    /// Where the ranges are in step, the new side of hunk `k` comes to stand in its new range.
    proof fn lemma_new_side_in_step(self, k: int, src: Seq<Seq<char>>)
        requires
            self.lines_are_single(),
            self.fits(src),
            self.all_found(src),
            self.starts_in_text(src),
            self.ranges_in_step(),
            no_newlines(src),
            0 <= k < self.hunks.len(),
        ensures
            first_line(self.hunks[k].new_range) == self.new_position(k, src),
            self.kept_before(k, src) == src.subrange(
                resume_line(self.hunks, k) - 1,
                first_line(self.hunks[k].old_range) - 1,
            ),
    {
        let from = resume_line(self.hunks, k);
        let old_first = first_line(self.hunks[k].old_range);
        self.lemma_old_side_shown(k, src);
        self.lemma_patched_length(k, src);
        assert(first_line(self.hunks[k].new_range) == old_first + self.growth(k));
        assert(self.kept_before(k, src) =~= src.subrange(from - 1, old_first - 1));
    }

    /// Where the ranges are in step, hunk `k` describes the change that it makes.
    proof fn lemma_hunk_describes_its_change(self, k: int, src: Seq<Seq<char>>)
        requires
            self.lines_are_single(),
            self.fits(src),
            self.all_found(src),
            self.starts_in_text(src),
            self.ranges_in_step(),
            no_newlines(src),
            0 <= k < self.hunks.len(),
        ensures
            self.hunk_describes(k, src, self.output_lines(src)),
    {
        self.lemma_old_side_shown(k, src);
        self.lemma_new_side_in_step(k, src);
        assert(shows(
            self.output_lines(src),
            self.hunks[k].new_range,
            new_lines(self.hunks[k].lines),
        )) by {
            self.lemma_hunk_sides(k, src);
            self.lemma_new_side_placed(k, src);
        }
        assert(self.new_resume_line(k) == self.patched_lines(k, src).len() + 1) by {
            self.lemma_in_step(k, src);
        }
        assert(self.hunk_kept(k, src)) by {
            self.lemma_hunk_kept(k, src);
        }
    }

    /// The lines kept before hunk `k` stand in the new text behind what the hunks before it make.
    spec fn hunk_kept(self, k: int, src: Seq<Seq<char>>) -> bool {
        let at = self.patched_lines(k, src).len() as int;
        let kept = self.kept_before(k, src);
        self.output_lines(src).subrange(at, at + kept.len()) == kept
    }

    /// What lies before hunk `k` is kept in its place.
    proof fn lemma_hunk_kept(self, k: int, src: Seq<Seq<char>>)
        requires
            0 <= k < self.hunks.len(),
        ensures
            self.hunk_kept(k, src),
    {
        let out = self.output_lines(src);
        let upto = self.patched_lines(k + 1, src);
        let at = self.patched_lines(k, src).len() as int;
        let kept = self.kept_before(k, src);
        self.lemma_prefix(k + 1, self.hunks.len() as int, src);
        assert(out.take(upto.len() as int) =~= upto);
        assert(out.subrange(at, at + kept.len()) =~= upto.subrange(at, at + kept.len()));
        assert(upto.subrange(at, at + kept.len()) =~= kept);
    }

    /// A patch whose ranges are in step describes the change that it makes.
    proof fn lemma_describes_its_change(self, src: Seq<Seq<char>>)
        requires
            self.lines_are_single(),
            self.fits(src),
            self.all_found(src),
            self.starts_in_text(src),
            self.ranges_in_step(),
            no_newlines(src),
        ensures
            self.describes(src, self.output_lines(src)),
    {
        let n = self.hunks.len() as int;
        let out = self.output_lines(src);
        assert forall|k: int| 0 <= k < n implies self.hunk_describes(k, src, out) by {
            self.lemma_hunk_describes_its_change(k, src);
        }
        self.lemma_in_step(n, src);
        let tail = lines_from(src, resume_line(self.hunks, n), src.len() as int);
        assert(tail =~= src.skip(resume_line(self.hunks, n) - 1));
        assert(out.skip(self.new_resume_line(n) - 1) =~= tail);
    }

    /// The new text gives the lines that it is made of, where no carriage return stands before
    /// a newline in it and its last line has characters or a newline.
    proof fn lemma_text_gives_lines(self, src: Seq<Seq<char>>)
        requires
            no_newlines(self.output_lines(src)),
            no_crlf(self.output_text(src)),
            self.end_newline || self.output_lines(src).len() == 0
                || self.output_lines(src).last().len() > 0,
        ensures
            text_lines(self.output_text(src)) == self.output_lines(src),
    {
        let out = self.output_lines(src);
        let t = self.output_text(src);
        let parts = split(t, '\n');
        lemma_text_of_parts(t);
        lemma_split_unlines(out);
        if self.end_newline || out.len() == 0 {
            assert(parts.drop_last() =~= out);
        } else {
            let init = out.drop_last();
            let last = out.last();
            assert(no_newlines(init));
            assert(!out[out.len() - 1].contains('\n'));
            lemma_split_unlines(init);
            assert(unlines(out).drop_last() =~= unlines(init) + last);
            lemma_split_extend(unlines(init), last, '\n');
            assert(init.push(Seq::<char>::empty()).drop_last() =~= init);
            assert(Seq::<char>::empty() + last =~= last);
            assert(parts =~= out);
        }
        let ended = parts.drop_last().map_values(|l: Seq<char>| without_cr(l));
        assert forall|i: int| 0 <= i < ended.len() implies ended[i] == parts.drop_last()[i] by {
            assert(without_cr(parts[i]) == parts[i]);
        }
        assert(ended =~= parts.drop_last());
        assert(text_lines(t) =~= out);
    }
}

/// The sides of a reversed hunk are exchanged.
proof fn lemma_reversed_sides(lines: Seq<HunkLineView>)
    ensures
        old_lines(lines.map_values(|l: HunkLineView| reversed_line(l))) == new_lines(lines),
        new_lines(lines.map_values(|l: HunkLineView| reversed_line(l))) == old_lines(lines),
    decreases lines.len(),
{
    let back = lines.map_values(|l: HunkLineView| reversed_line(l));
    if lines.len() > 0 {
        let init = lines.drop_last();
        lemma_reversed_sides(init);
        assert(back.drop_last() =~= init.map_values(|l: HunkLineView| reversed_line(l)));
        assert(back.last() == reversed_line(lines.last()));
    }
}

/// A text is made of its parts between newlines; where no carriage return stands before a
/// newline, no ended part has one at its end.
proof fn lemma_text_of_parts(s: Seq<char>)
    requires
        no_crlf(s),
    ensures
        unlines(split(s, '\n').drop_last()) + split(s, '\n').last() == s,
        forall|i: int|
            0 <= i < split(s, '\n').len() - 1 ==> without_cr(#[trigger] split(s, '\n')[i])
                == split(s, '\n')[i],
        split(s, '\n').last().len() > 0 ==> split(s, '\n').last().last() == s.last(),
        split(s, '\n').last().len() == 0 <==> s.len() == 0 || s.last() == '\n',
    decreases s.len(),
{
    let parts = split(s, '\n');
    if s.len() == 0 {
        assert(parts.drop_last() =~= Seq::<Seq<char>>::empty());
        assert(unlines(parts.drop_last()) + parts.last() =~= s);
    } else {
        let init = s.drop_last();
        let before = split(init, '\n');
        assert forall|i: int| 0 <= i < init.len() - 1 && init[i] == '\r' implies #[trigger] init[i
            + 1] != '\n' by {
            assert(s[i + 1] != '\n');
        }
        lemma_text_of_parts(init);
        lemma_split_parts(init, '\n');
        if s.last() == '\n' {
            assert(parts.drop_last() =~= before);
            assert(unlines(before) + parts.last() =~= s);
            let ended = before.last();
            if ended.len() > 0 {
                assert(s[init.len() - 1 + 1] == '\n');
                assert(init.last() != '\r');
            }
            assert forall|i: int| 0 <= i < parts.len() - 1 implies without_cr(#[trigger] parts[i])
                == parts[i] by {
                assert(parts[i] == before[i]);
            }
        } else {
            assert(parts.drop_last() =~= before.drop_last());
            assert(parts.last() == before.last().push(s.last()));
            assert(unlines(before.drop_last()) + before.last().push(s.last()) =~= (unlines(
                before.drop_last(),
            ) + before.last()).push(s.last()));
            assert(init.push(s.last()) =~= s);
            assert forall|i: int| 0 <= i < parts.len() - 1 implies without_cr(#[trigger] parts[i])
                == parts[i] by {
                assert(parts[i] == before[i]);
            }
        }
    }
}

/// The lines of a text in which no carriage return stands before a newline make the text again,
/// but for the newline that its last line may lack.
proof fn lemma_lines_make_text(s: Seq<char>)
    requires
        no_crlf(s),
    ensures
        s.len() == 0 || s.last() == '\n' ==> unlines(text_lines(s)) == s,
        s.len() > 0 && s.last() != '\n' ==> unlines(text_lines(s)) == s.push('\n'),
{
    let parts = split(s, '\n');
    lemma_text_of_parts(s);
    lemma_split_parts(s, '\n');
    let ended = parts.drop_last().map_values(|l: Seq<char>| without_cr(l));
    assert forall|i: int| 0 <= i < ended.len() implies ended[i] == parts.drop_last()[i] by {
        assert(without_cr(parts[i]) == parts[i]);
    }
    assert(ended =~= parts.drop_last());
    if parts.last().len() == 0 {
        assert(unlines(text_lines(s)) =~= s);
    } else {
        let all = ended.push(parts.last());
        assert(all.drop_last() =~= ended);
        assert(unlines(all) =~= s.push('\n'));
    }
}

/// A patch that describes the change from an old to a new text (each old range shows the hunk's
/// old side in the old text, each new range its new side in the new text, and the lines between
/// are the same), and that tells whether the new text ends in a newline, applied to the old text
/// gives the new one. This holds with and without context lines. Left out are new texts with
/// carriage returns before newlines, which applying a patch does not write.
pub proof fn law_described_change_is_made(p: PatchView, old_text: Seq<char>, new_text: Seq<char>)
    requires
        p.describes(text_lines(old_text), text_lines(new_text)),
        no_crlf(new_text),
        new_text.len() > 0 ==> p.end_newline == (new_text.last() == '\n'),
        text_lines(old_text).len() < usize::MAX,
        text_lines(new_text).len() < usize::MAX,
    ensures
        p.fits(text_lines(old_text)),
        p.outcome(text_lines(old_text)) == Ok::<Seq<char>, PatchError>(new_text),
{
    let old_side = text_lines(old_text);
    let new_side = text_lines(new_text);
    lemma_text_lines_single(old_text);
    lemma_text_lines_single(new_text);
    p.lemma_described(old_side, new_side);
    lemma_lines_make_text(new_text);
    if new_text.len() > 0 && new_text.last() != '\n' {
        assert(new_text.push('\n').drop_last() =~= new_text);
    }
    assert(p.output_text(old_side) =~= new_text);
}

/// The reversed patch undoes the patch: where a patch whose new ranges are in step with its old
/// ones applies to a text, the reversed patch applies to the new text and gives the old one
/// back. A patch tells of one side only whether it ends in a newline, so both texts must end
/// alike. Left out are carriage returns before newlines, which applying a patch does not write,
/// a new text whose last line has no characters and no newline, and insertions behind the end of
/// the text.
pub proof fn law_reversed_patch_undoes(p: PatchView, source: Seq<char>)
    requires
        p.lines_are_single(),
        p.fits(text_lines(source)),
        p.outcome(text_lines(source)) is Ok,
        p.starts_in_text(text_lines(source)),
        p.ranges_in_step(),
        source.len() > 0 ==> p.end_newline == (source.last() == '\n'),
        no_crlf(source),
        no_crlf(p.outcome(text_lines(source))->Ok_0),
        p.end_newline || p.output_lines(text_lines(source)).len() == 0 || p.output_lines(
            text_lines(source),
        ).last().len() > 0,
        text_lines(source).len() < usize::MAX,
        text_lines(p.outcome(text_lines(source))->Ok_0).len() < usize::MAX,
    ensures
        p.reversed().fits(text_lines(p.outcome(text_lines(source))->Ok_0)),
        p.reversed().outcome(text_lines(p.outcome(text_lines(source))->Ok_0)) == Ok::<
            Seq<char>,
            PatchError,
        >(source),
{
    let src = text_lines(source);
    let out = p.output_lines(src);
    lemma_text_lines_single(source);
    p.lemma_describes_its_change(src);
    p.lemma_output_read_back(source);
    p.lemma_text_gives_lines(src);
    p.lemma_described_back(src, out);
    law_described_change_is_made(p.reversed(), p.output_text(src), source);
}

/// What a line of a hunk says.
pub open spec fn said(l: HunkLineView) -> Seq<char> {
    match l {
        HunkLineView::Add(t) => t,
        HunkLineView::Remove(t) => t,
        HunkLineView::Context(t) => t,
    }
}

/// The lines of the hunk that are not added.
pub open spec fn old_side(h: HunkView) -> Seq<Seq<char>> {
    h.lines.filter(|l: HunkLineView| !(l is Add)).map_values(|l: HunkLineView| said(l))
}

/// The lines of the hunk that are not removed.
pub open spec fn new_side(h: HunkView) -> Seq<Seq<char>> {
    h.lines.filter(|l: HunkLineView| !(l is Remove)).map_values(|l: HunkLineView| said(l))
}

/// The position, counted from zero, of what the range covers.
pub open spec fn range_position(r: LineRange) -> int {
    if r.count == 0 {
        r.start as int
    } else {
        r.start - 1
    }
}

/// The position behind what the old ranges of the first `k` hunks cover.
pub open spec fn position_behind(hunks: Seq<HunkView>, k: int) -> int {
    if k <= 0 {
        0
    } else {
        range_position(hunks[k - 1].old_range) + hunks[k - 1].old_range.count
    }
}

/// The lines from position `from` up to position `to`, as far as there are any.
pub open spec fn between(text: Seq<Seq<char>>, from: int, to: int) -> Seq<Seq<char>> {
    let a = if from <= text.len() {
        from
    } else {
        text.len() as int
    };
    let b = if to <= text.len() {
        to
    } else {
        text.len() as int
    };
    text.subrange(a, b)
}

/// The lines, each ended by a newline.
pub open spec fn ended(lines: Seq<Seq<char>>) -> Seq<char> {
    lines.map_values(|l: Seq<char>| l.push('\n')).flatten()
}

/// Line by line, the text has the given lines from line number `start` on.
pub open spec fn stand_in(text: Seq<Seq<char>>, start: int, lines: Seq<Seq<char>>) -> bool {
    forall|i: int|
        0 <= i < lines.len() ==> 0 <= start - 1 + i < text.len() && text[start - 1 + i]
            == #[trigger] lines[i]
}

/// A hunk's sides are its lines without the added and without the removed ones.
pub proof fn law_sides_of_a_hunk(h: HunkView)
    ensures
        old_lines(h.lines) == old_side(h),
        new_lines(h.lines) == new_side(h),
{
    lemma_sides(h.lines);
}

/// The sides of hunk lines.
proof fn lemma_sides(lines: Seq<HunkLineView>)
    ensures
        old_lines(lines) == lines.filter(|l: HunkLineView| !(l is Add)).map_values(
            |l: HunkLineView| said(l),
        ),
        new_lines(lines) == lines.filter(|l: HunkLineView| !(l is Remove)).map_values(
            |l: HunkLineView| said(l),
        ),
    decreases lines.len(),
{
    reveal(Seq::filter);
    let kept = |l: HunkLineView| !(l is Add);
    let made = |l: HunkLineView| !(l is Remove);
    let text = |l: HunkLineView| said(l);
    if lines.len() == 0 {
        assert(old_lines(lines) =~= lines.filter(kept).map_values(text));
        assert(new_lines(lines) =~= lines.filter(made).map_values(text));
    } else {
        let init = lines.drop_last();
        lemma_sides(init);
        assert(init.filter(kept).push(lines.last()).map_values(text) =~= init.filter(
            kept,
        ).map_values(text).push(said(lines.last())));
        assert(init.filter(made).push(lines.last()).map_values(text) =~= init.filter(
            made,
        ).map_values(text).push(said(lines.last())));
    }
}

/// A side stands as a text where it stands line by line.
proof fn lemma_found_by_line(
    src: Seq<Seq<char>>,
    r: LineRange,
    side: Seq<Seq<char>>,
)
    requires
        no_newlines(src),
        no_newlines(side),
        side.len() == r.count,
        first_line(r) >= 1,
    ensures
        unlines(lines_from(src, first_line(r), r.count as int)) == unlines(side) <==> stand_in(
            src,
            r.start as int,
            side,
        ),
{
    let window = lines_from(src, first_line(r), r.count as int);
    assert(no_newlines(window)) by {
        assert forall|i: int| 0 <= i < window.len() implies !(#[trigger] window[i]).contains(
            '\n',
        ) by {
            assert(window[i] == src[first_line(r) - 1 + i]);
        }
    }
    if unlines(window) == unlines(side) {
        lemma_unlines_injective(window, side);
        assert forall|i: int| 0 <= i < side.len() implies 0 <= r.start - 1 + i < src.len()
            && src[r.start - 1 + i] == #[trigger] side[i] by {
            assert(window[i] == src[first_line(r) - 1 + i]);
        }
    }
    if stand_in(src, r.start as int, side) {
        if side.len() > 0 {
            let last = side[side.len() - 1];
            assert(r.start - 1 + side.len() <= src.len());
        }
        assert(window =~= side) by {
            assert forall|i: int| 0 <= i < side.len() implies window[i] == side[i] by {
                assert(src[r.start - 1 + i] == side[i]);
            }
        }
    }
}

/// Applying finds out, line by line, what stands in the text: it gives a new text if and only if
/// the old side of every hunk stands in its old range; `AlreadyApplied` if and only if there are
/// hunks and of every one of them the new side stands in its new range and the old side does not
/// stand in its old range; and `OutdatedSource` on every other text, so wherever a hunk finds
/// neither of its sides.
pub proof fn law_outcome_tells_what_stands(p: PatchView, source: Seq<char>)
    requires
        p.lines_are_single(),
        p.fits(text_lines(source)),
    ensures
        ({
            let src = text_lines(source);
            let outcome = p.outcome(src);
            &&& outcome is Ok <==> forall|k: int|
                0 <= k < p.hunks.len() ==> stand_in(
                    src,
                    (#[trigger] p.hunks[k]).old_range.start as int,
                    old_side(p.hunks[k]),
                )
            &&& outcome == Err::<Seq<char>, PatchError>(PatchError::AlreadyApplied) <==> {
                &&& p.hunks.len() > 0
                &&& forall|k: int|
                    0 <= k < p.hunks.len() ==> stand_in(
                        src,
                        (#[trigger] p.hunks[k]).new_range.start as int,
                        new_side(p.hunks[k]),
                    ) && !stand_in(
                        src,
                        p.hunks[k].old_range.start as int,
                        old_side(p.hunks[k]),
                    )
            }
            &&& (exists|k: int|
                0 <= k < p.hunks.len() && !stand_in(
                    src,
                    (#[trigger] p.hunks[k]).new_range.start as int,
                    new_side(p.hunks[k]),
                ) && !stand_in(src, p.hunks[k].old_range.start as int, old_side(p.hunks[k])))
                ==> outcome == Err::<Seq<char>, PatchError>(PatchError::OutdatedSource)
        }),
{
    let src = text_lines(source);
    lemma_text_lines_single(source);
    assert forall|k: int| 0 <= k < p.hunks.len() implies {
        let h = #[trigger] p.hunks[k];
        let found = stand_in(src, h.old_range.start as int, old_side(h));
        &&& h.old_side_found(src) == found
        &&& !found ==> h.new_side_found(src) == stand_in(
            src,
            h.new_range.start as int,
            new_side(h),
        )
    } by {
        let h = p.hunks[k];
        p.lemma_hunk_sides(k, src);
        p.lemma_resume(k, src);
        assert(p.hunk_fits(k, src));
        law_sides_of_a_hunk(h);
        lemma_found_by_line(src, h.old_range, old_side(h));
        if first_line(h.new_range) >= 1 {
            lemma_found_by_line(src, h.new_range, new_side(h));
        }
    }
    if p.outcome(src) == Err::<Seq<char>, PatchError>(PatchError::AlreadyApplied) {
        assert forall|k: int| 0 <= k < p.hunks.len() implies stand_in(
            src,
            (#[trigger] p.hunks[k]).new_range.start as int,
            new_side(p.hunks[k]),
        ) && !stand_in(src, p.hunks[k].old_range.start as int, old_side(p.hunks[k])) by {
            assert(p.hunks[k].applied_before(src));
        }
    }
    if p.hunks.len() > 0 && forall|k: int|
        0 <= k < p.hunks.len() ==> stand_in(
            src,
            (#[trigger] p.hunks[k]).new_range.start as int,
            new_side(p.hunks[k]),
        ) && !stand_in(src, p.hunks[k].old_range.start as int, old_side(p.hunks[k])) {
        assert(!p.hunks[0].old_side_found(src));
        assert(p.all_applied_before(src));
    }
}

/// No line of a hunk holds a newline or a carriage return, wherever in the line.
pub proof fn law_single_lines(p: PatchView)
    ensures
        p.lines_are_single() <==> forall|k: int, i: int, j: int|
            0 <= k < p.hunks.len() && 0 <= i < p.hunks[k].lines.len() && 0 <= j < said(
                p.hunks[k].lines[i],
            ).len() ==> #[trigger] said(p.hunks[k].lines[i])[j] != '\n' && said(
                p.hunks[k].lines[i],
            )[j] != '\r',
{
    if p.lines_are_single() {
        assert forall|k: int, i: int, j: int|
            0 <= k < p.hunks.len() && 0 <= i < p.hunks[k].lines.len() && 0 <= j < said(
                p.hunks[k].lines[i],
            ).len() implies #[trigger] said(p.hunks[k].lines[i])[j] != '\n' && said(
            p.hunks[k].lines[i],
        )[j] != '\r' by {
            let line = p.hunks[k].lines[i].text();
            assert(!line.contains('\n') && !line.contains('\r'));
        }
    }
    if forall|k: int, i: int, j: int|
        0 <= k < p.hunks.len() && 0 <= i < p.hunks[k].lines.len() && 0 <= j < said(
            p.hunks[k].lines[i],
        ).len() ==> #[trigger] said(p.hunks[k].lines[i])[j] != '\n' && said(
            p.hunks[k].lines[i],
        )[j] != '\r' {
        assert forall|k: int, i: int|
            0 <= k < p.hunks.len() && 0 <= i < p.hunks[k].lines.len() implies {
            let line = #[trigger] p.hunks[k].lines[i].text();
            !line.contains('\n') && !line.contains('\r')
        } by {
            let line = p.hunks[k].lines[i].text();
            assert(line == said(p.hunks[k].lines[i]));
            assert forall|j: int| 0 <= j < line.len() implies line[j] != '\n' && line[j] != '\r' by {
                assert(said(p.hunks[k].lines[i])[j] == line[j]);
            }
        }
    }
}

/// The position of the hunk's old range covers its old side, taken as a text.
pub open spec fn old_text_stands(src: Seq<Seq<char>>, h: HunkView) -> bool {
    let at = range_position(h.old_range);
    ended(between(src, at, at + h.old_range.count)) == ended(old_side(h))
}

/// The position of the hunk's new range covers its new side, taken as a text.
pub open spec fn new_text_stands(src: Seq<Seq<char>>, h: HunkView) -> bool {
    let at = range_position(h.new_range);
    ended(between(src, at, at + h.new_range.count)) == ended(new_side(h))
}

/// What comes of a patch, also of one whose lines hold line ends, which are compared as texts:
/// a new text if and only if every old side stands in its old range, and `AlreadyApplied` if and
/// only if there are hunks and of every one the new side stands in its new range and the old
/// side does not stand in its old range.
pub proof fn law_outcome_compares_texts(p: PatchView, src: Seq<Seq<char>>)
    requires
        p.fits(src),
    ensures
        p.outcome(src) is Ok <==> forall|k: int|
            0 <= k < p.hunks.len() ==> old_text_stands(src, #[trigger] p.hunks[k]),
        p.outcome(src) == Err::<Seq<char>, PatchError>(PatchError::AlreadyApplied) <==> {
            &&& p.hunks.len() > 0
            &&& forall|k: int|
                0 <= k < p.hunks.len() ==> new_text_stands(src, #[trigger] p.hunks[k])
                    && !old_text_stands(src, p.hunks[k])
        },
{
    assert forall|k: int| 0 <= k < p.hunks.len() implies {
        let h = #[trigger] p.hunks[k];
        &&& h.old_side_found(src) == old_text_stands(src, h)
        &&& !h.old_side_found(src) ==> h.new_side_found(src) == new_text_stands(src, h)
    } by {
        let h = p.hunks[k];
        p.lemma_resume(k, src);
        assert(p.hunk_fits(k, src));
        law_sides_of_a_hunk(h);
        lemma_window(src, h.old_range);
        law_unlines_ends_every_line(old_side(h));
        if first_line(h.new_range) >= 1 {
            lemma_window(src, h.new_range);
            law_unlines_ends_every_line(new_side(h));
        }
    }
    if p.outcome(src) == Err::<Seq<char>, PatchError>(PatchError::AlreadyApplied) {
        assert forall|k: int| 0 <= k < p.hunks.len() implies new_text_stands(
            src,
            #[trigger] p.hunks[k],
        ) && !old_text_stands(src, p.hunks[k]) by {
            assert(p.hunks[k].applied_before(src));
        }
    }
    if p.hunks.len() > 0 && forall|k: int|
        0 <= k < p.hunks.len() ==> new_text_stands(src, #[trigger] p.hunks[k])
            && !old_text_stands(src, p.hunks[k]) {
        assert(!p.hunks[0].old_side_found(src));
        assert(p.all_applied_before(src));
    }
}

/// The lines of a range, as a text.
proof fn lemma_window(src: Seq<Seq<char>>, r: LineRange)
    requires
        first_line(r) >= 1,
    ensures
        unlines(lines_from(src, first_line(r), r.count as int)) == ended(
            between(src, range_position(r), range_position(r) + r.count),
        ),
{
    let window = lines_from(src, first_line(r), r.count as int);
    assert(window =~= between(src, range_position(r), range_position(r) + r.count));
    law_unlines_ends_every_line(window);
}

/// The patch can be held against a text if and only if each hunk begins behind the one before it,
/// its ranges count its sides, its numbers can be counted, and it names a line to look for its
/// new side at, or needs none.
pub proof fn law_when_a_patch_fits(p: PatchView, src: Seq<Seq<char>>)
    requires
        p.lines_are_single(),
        no_newlines(src),
    ensures
        p.fits(src) <==> forall|k: int|
            0 <= k < p.hunks.len() ==> {
                let h = #[trigger] p.hunks[k];
                &&& position_behind(p.hunks, k) <= range_position(h.old_range)
                &&& range_position(h.old_range) + h.old_range.count < usize::MAX
                &&& range_position(h.new_range) < usize::MAX
                &&& h.new_range.count <= usize::MAX
                &&& old_side(h).len() == h.old_range.count
                &&& new_side(h).len() == h.new_range.count
                &&& h.new_range.start >= 1 || h.new_range.count == 0 || stand_in(
                    src,
                    h.old_range.start as int,
                    old_side(h),
                )
            },
{
    assert forall|k: int| 0 <= k < p.hunks.len() implies {
        let h = #[trigger] p.hunks[k];
        &&& no_newlines(old_side(h))
        &&& h.counts_agree() <==> old_side(h).len() == h.old_range.count && new_side(h).len()
            == h.new_range.count
    } by {
        let h = p.hunks[k];
        law_sides_of_a_hunk(h);
        assert forall|i: int| 0 <= i < h.lines.len() implies {
            let l = #[trigger] h.lines[i].text();
            !l.contains('\n') && !l.contains('\r')
        } by {
            let l = p.hunks[k].lines[i].text();
        }
        lemma_sides_single(h.lines);
        assert(no_newlines(old_lines(h.lines)) && no_newlines(new_lines(h.lines)));
        lemma_line_count(old_lines(h.lines));
        lemma_line_count(new_lines(h.lines));
    }
    if p.fits(src) {
        assert forall|k: int| 0 <= k < p.hunks.len() implies {
            let h = #[trigger] p.hunks[k];
            &&& position_behind(p.hunks, k) <= range_position(h.old_range)
            &&& range_position(h.old_range) + h.old_range.count < usize::MAX
            &&& range_position(h.new_range) < usize::MAX
            &&& h.new_range.count <= usize::MAX
            &&& old_side(h).len() == h.old_range.count
            &&& new_side(h).len() == h.new_range.count
            &&& h.new_range.start >= 1 || h.new_range.count == 0 || stand_in(
                src,
                h.old_range.start as int,
                old_side(h),
            )
        } by {
            let h = p.hunks[k];
            assert(p.hunk_fits(k, src));
            p.lemma_resume(k, src);
            law_sides_of_a_hunk(h);
            lemma_found_by_line(src, h.old_range, old_side(h));
        }
    }
    if forall|k: int|
        0 <= k < p.hunks.len() ==> {
            let h = #[trigger] p.hunks[k];
            &&& position_behind(p.hunks, k) <= range_position(h.old_range)
            &&& range_position(h.old_range) + h.old_range.count < usize::MAX
            &&& range_position(h.new_range) < usize::MAX
            &&& h.new_range.count <= usize::MAX
            &&& old_side(h).len() == h.old_range.count
            &&& new_side(h).len() == h.new_range.count
            &&& h.new_range.start >= 1 || h.new_range.count == 0 || stand_in(
                src,
                h.old_range.start as int,
                old_side(h),
            )
        } {
        assert forall|k: int| 0 <= k < p.hunks.len() implies p.hunk_fits(k, src) by {
            let h = p.hunks[k];
            law_sides_of_a_hunk(h);
            if k > 0 {
                lemma_position_not_negative(p.hunks, k);
                assert(resume_line(p.hunks, k) == position_behind(p.hunks, k) + 1);
            }
            lemma_found_by_line(src, h.old_range, old_side(h));
        }
    }
}

/// When a patch can be held against lines, also one whose own lines hold line ends: its ranges
/// then count the lines that its sides make as texts.
pub proof fn law_when_any_patch_fits(p: PatchView, src: Seq<Seq<char>>)
    ensures
        p.fits(src) <==> forall|k: int|
            0 <= k < p.hunks.len() ==> is_fit(p.hunks, src, k, #[trigger] p.hunks[k]),
{
    if p.fits(src) {
        assert forall|k: int| 0 <= k < p.hunks.len() implies is_fit(
            p.hunks,
            src,
            k,
            #[trigger] p.hunks[k],
        ) by {
            let h = p.hunks[k];
            assert(p.hunk_fits(k, src));
            p.lemma_resume(k, src);
            law_sides_of_a_hunk(h);
            law_unlines_ends_every_line(old_side(h));
            law_unlines_ends_every_line(new_side(h));
            lemma_window(src, h.old_range);
        }
    }
    if forall|k: int|
        0 <= k < p.hunks.len() ==> is_fit(p.hunks, src, k, #[trigger] p.hunks[k]) {
        assert forall|k: int| 0 <= k < p.hunks.len() implies p.hunk_fits(k, src) by {
            let h = p.hunks[k];
            assert(is_fit(p.hunks, src, k, h));
            law_sides_of_a_hunk(h);
            law_unlines_ends_every_line(old_side(h));
            law_unlines_ends_every_line(new_side(h));
            assert forall|j: int| 0 <= j < p.hunks.len() implies position_behind(p.hunks, j)
                <= range_position((#[trigger] p.hunks[j]).old_range) by {
                assert(is_fit(p.hunks, src, j, p.hunks[j]));
            }
            lemma_position_not_negative(p.hunks, k);
            if k > 0 {
                assert(resume_line(p.hunks, k) == position_behind(p.hunks, k) + 1);
            }
            lemma_window(src, h.old_range);
        }
    }
}

/// Hunk `k` begins behind the one before it, its ranges count the lines of its sides, its numbers
/// can be counted, and it names a line to look for its new side at, or needs none.
pub open spec fn is_fit(
    hunks: Seq<HunkView>,
    src: Seq<Seq<char>>,
    k: int,
    h: HunkView,
) -> bool {
    &&& position_behind(hunks, k) <= range_position(h.old_range)
    &&& range_position(h.old_range) + h.old_range.count < usize::MAX
    &&& range_position(h.new_range) < usize::MAX
    &&& h.new_range.count <= usize::MAX
    &&& text_lines(ended(old_side(h))).len() == h.old_range.count
    &&& text_lines(ended(new_side(h))).len() == h.new_range.count
    &&& h.new_range.start >= 1 || h.new_range.count == 0 || old_text_stands(src, h)
}

/// Where each hunk begins behind the one before it, none lies before the text.
proof fn lemma_position_not_negative(hunks: Seq<HunkView>, k: int)
    requires
        0 <= k <= hunks.len(),
        forall|j: int|
            0 <= j < hunks.len() ==> position_behind(hunks, j) <= range_position(
                (#[trigger] hunks[j]).old_range,
            ),
    ensures
        position_behind(hunks, k) >= 0,
    decreases k,
{
    if k > 0 {
        lemma_position_not_negative(hunks, k - 1);
        assert(position_behind(hunks, k - 1) <= range_position(hunks[k - 1].old_range));
    }
}

/// The lines of the new text up to the end of hunk `k`, from the end of the hunk before it: those
/// of the old text between the two, and the new side of the hunk.
pub open spec fn hunk_lines(p: PatchView, src: Seq<Seq<char>>, k: int) -> Seq<Seq<char>> {
    between(src, position_behind(p.hunks, k), range_position(p.hunks[k].old_range)) + new_side(
        p.hunks[k],
    )
}

/// The lines up to the first `k` hunks, one hunk after the other.
proof fn lemma_patched_by_hunk(p: PatchView, src: Seq<Seq<char>>, k: int)
    requires
        p.fits(src),
        0 <= k <= p.hunks.len(),
    ensures
        p.patched_lines(k, src) == Seq::new(k as nat, |j: int| hunk_lines(p, src, j)).flatten(),
        0 <= position_behind(p.hunks, k) == resume_line(p.hunks, k) - 1,
    decreases k,
{
    let parts = Seq::new(k as nat, |j: int| hunk_lines(p, src, j));
    if k == 0 {
        assert(parts =~= Seq::<Seq<Seq<char>>>::empty());
    } else {
        let before = Seq::new((k - 1) as nat, |j: int| hunk_lines(p, src, j));
        lemma_patched_by_hunk(p, src, k - 1);
        assert(p.hunk_fits(k - 1, src));
        let h = p.hunks[k - 1];
        law_sides_of_a_hunk(h);
        assert(parts =~= before.push(hunk_lines(p, src, k - 1)));
        before.lemma_flatten_push(hunk_lines(p, src, k - 1));
        let from = resume_line(p.hunks, k - 1);
        assert(lines_from(src, from, first_line(h.old_range) - from) =~= between(
            src,
            from - 1,
            first_line(h.old_range) - 1,
        ));
        assert(p.patched_lines(k, src) =~= before.flatten() + hunk_lines(p, src, k - 1));
    }
}

/// The new text holds the lines of the old one with the new side of each hunk in the place that
/// its old range covers, each line ended by a newline; the last newline is left out where the
/// patch says that the new text has none.
pub proof fn law_new_text_line_by_line(p: PatchView, source: Seq<char>)
    requires
        p.fits(text_lines(source)),
        p.outcome(text_lines(source)) is Ok,
    ensures
        ({
            let src = text_lines(source);
            let n = p.hunks.len();
            let all = ended(
                Seq::new(n, |k: int| hunk_lines(p, src, k)).flatten() + between(
                    src,
                    position_behind(p.hunks, n as int),
                    src.len() as int,
                ),
            );
            p.outcome(src) == Ok::<Seq<char>, PatchError>(
                if p.end_newline || all.len() == 0 {
                    all
                } else {
                    all.drop_last()
                },
            )
        }),
{
    let src = text_lines(source);
    let n = p.hunks.len() as int;
    lemma_patched_by_hunk(p, src, n);
    let from = resume_line(p.hunks, n);
    assert(lines_from(src, from, src.len() as int) =~= between(src, from - 1, src.len() as int));
    law_unlines_ends_every_line(p.output_lines(src));
}

/// What a patch holds is what its fields hold.
pub proof fn law_view_keeps_the_patch(p: Patch)
    ensures
        p@.old_path == p.old_path@,
        p@.new_path == p.new_path@,
        p@.end_newline == p.end_newline,
        p@.hunks.len() == p.hunks@.len(),
        forall|k: int|
            0 <= k < p.hunks@.len() ==> {
                let h = #[trigger] p.hunks@[k];
                &&& p@.hunks[k].old_range == h.old_range
                &&& p@.hunks[k].new_range == h.new_range
                &&& p@.hunks[k].lines.len() == h.lines@.len()
            },
        forall|k: int, i: int|
            0 <= k < p.hunks@.len() && 0 <= i < p.hunks@[k].lines@.len()
                ==> p@.hunks[k].lines[i] == match #[trigger] p.hunks@[k].lines@[i] {
                HunkLine::Add(l) => HunkLineView::Add(l@),
                HunkLine::Remove(l) => HunkLineView::Remove(l@),
                HunkLine::Context(l) => HunkLineView::Context(l@),
            },
{
}

/// An outcome taken by its contents is the same outcome.
pub proof fn law_view_keeps_the_outcome(text: String, error: PatchError)
    ensures
        outcome_view(Ok(text)) == Ok::<Seq<char>, PatchError>(text@),
        outcome_view(Err(error)) == Err::<Seq<char>, PatchError>(error),
{
}

} // verus!
