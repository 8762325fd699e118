//! The outer shape of a patch file.
//!
//! The parser for patch files gives up with a panic on a text of which it understands only the
//! beginning, and on a line number that does not fit in 64 bits; and it counts the lines of the
//! text in 32 bits. A text that has the shape
//! described here is understood up to its end, or is refused with an ordinary error because
//! of its header lines. Every text that the parser understands, and whose lines it can count,
//! has this shape.
use vstd::prelude::*;

#[allow(unused_imports)]
use crate::patch::{HunkLineView, HunkView, LineRange};
use crate::text::{find, from_chars, split_on, stands_at, to_chars, trim_cr};
#[allow(unused_imports)]
use crate::text::{
    first_match, law_match_is_character_by_character, lemma_first_match, lemma_split_extend,
    lemma_split_parts, lemma_split_unlines, lemma_unlines_concat, matches_at, split, stands, texts, unlines,
    without_cr,
};

verus! {

/// The characters that Unicode calls white space.
pub open spec fn is_space(c: char) -> bool {
    ||| '\u{9}' <= c <= '\u{d}'
    ||| c == ' '
    ||| c == '\u{85}'
    ||| c == '\u{a0}'
    ||| c == '\u{1680}'
    ||| '\u{2000}' <= c <= '\u{200a}'
    ||| c == '\u{2028}'
    ||| c == '\u{2029}'
    ||| c == '\u{202f}'
    ||| c == '\u{205f}'
    ||| c == '\u{3000}'
}

/// `s` without the white space at its end.
pub open spec fn trimmed_end(s: Seq<char>) -> Seq<char>
    decreases s.len(),
{
    if s.len() > 0 && is_space(s.last()) {
        trimmed_end(s.drop_last())
    } else {
        s
    }
}

/// The position behind the line of which the rest, from `i` on, starts with `word`.
pub open spec fn line_end_after(s: Seq<char>, word: Seq<char>, i: int) -> Option<int> {
    if matches_at(s, word, i) {
        match first_match(s, "\n"@, i + word.len()) {
            Some(j) => Some(j + 1),
            None => None,
        }
    } else {
        None
    }
}

/// The names in a notice about binary files: `A and B differ`.
pub open spec fn names_differ(names: Seq<char>) -> bool {
    let t = trimmed_end(names);
    let end = t.len() - " differ"@.len();
    matches_at(t, " differ"@, end) && first_match(t.take(end), " and "@, 0) is Some
}

/// The text starts with the line `Binary files A and B differ`.
pub open spec fn starts_with_binary_notice(s: Seq<char>) -> bool {
    match line_end_after(s, "Binary files "@, 0) {
        Some(end) => names_differ(s.subrange("Binary files "@.len() as int, end - 1)),
        None => false,
    }
}

/// The position behind the lines that tell of a file renamed and otherwise unchanged.
pub open spec fn rename_end(s: Seq<char>) -> Option<int> {
    match first_match(s, "\nsimilarity index 100%\n"@, 0) {
        Some(i) => match line_end_after(
            s,
            "rename from "@,
            i + "\nsimilarity index 100%\n"@.len(),
        ) {
            Some(j) => line_end_after(s, "rename to "@, j),
            None => None,
        },
        None => None,
    }
}

/// The position behind the two header lines, of which the first starts with `--- `.
pub open spec fn header_end(s: Seq<char>) -> Option<int> {
    match first_match(s, "--- "@, 0) {
        Some(i) => match line_end_after(s, "--- "@, i) {
            Some(j) => line_end_after(s, ""@, j),
            None => None,
        },
        None => None,
    }
}

pub open spec fn is_digit(c: char) -> bool {
    '0' <= c <= '9'
}

/// The position behind the digits that start at `i`.
pub open spec fn digits_end(s: Seq<char>, i: int) -> int
    decreases s.len() - i,
{
    if 0 <= i < s.len() && is_digit(s[i]) {
        digits_end(s, i + 1)
    } else {
        i
    }
}

/// The number that the digits write in base ten.
pub open spec fn number(digits: Seq<char>) -> nat
    decreases digits.len(),
{
    if digits.len() == 0 {
        0
    } else {
        number(digits.drop_last()) * 10 + (digits.last() as nat - '0' as nat) as nat
    }
}

/// The position behind the number at `i`, if there is one and it fits in 64 bits.
pub open spec fn number_end(s: Seq<char>, i: int) -> Option<int> {
    let end = digits_end(s, i);
    if i < end && number(s.subrange(i, end)) <= u64::MAX {
        Some(end)
    } else {
        None
    }
}

/// The position behind the range at `i`: a number, or two with a comma between them.
pub open spec fn range_end(s: Seq<char>, i: int) -> Option<int> {
    match number_end(s, i) {
        Some(j) => if matches_at(s, ","@, j) && number_end(s, j + 1) is Some {
            number_end(s, j + 1)
        } else {
            Some(j)
        },
        None => None,
    }
}

/// A hunk's first line: `@@ -R +R @@`, whatever follows it.
pub open spec fn is_hunk_header(line: Seq<char>) -> bool {
    matches_at(line, "@@ -"@, 0) && match range_end(line, 4) {
        Some(i) => matches_at(line, " +"@, i) && match range_end(line, i + 2) {
            Some(j) => matches_at(line, " @@"@, j),
            None => false,
        },
        None => false,
    }
}

/// A line of a hunk: it starts with a plus sign, a minus sign or a space, but does not look
/// like a header line.
pub open spec fn is_hunk_line(line: Seq<char>) -> bool {
    ||| matches_at(line, "+"@, 0) && !matches_at(line, "+++ "@, 0)
    ||| matches_at(line, "-"@, 0) && !matches_at(line, "--- "@, 0)
    ||| matches_at(line, " "@, 0)
}

/// How far the lines behind the header lines have come.
#[derive(Clone, Copy, PartialEq, Eq, Structural)]
pub enum Progress {
    /// No hunk yet.
    Start,
    /// Behind the first line of a hunk.
    Opened,
    /// Behind a further line of a hunk.
    Inside,
    /// Behind the last hunk.
    Closed,
    /// A line that has no place where it stands.
    Broken,
}

/// The note that the text has no newline at its end.
pub open spec fn missing_newline_note() -> Seq<char> {
    "\\ No newline at end of file"@
}

/// The progress that the next line makes.
pub open spec fn advanced(at: Progress, ended_line: Seq<char>) -> Progress {
    let line = without_cr(ended_line);
    if line.contains('\r') {
        Progress::Broken
    } else {
        match at {
            Progress::Start => if is_hunk_header(line) {
                Progress::Opened
            } else {
                Progress::Broken
            },
            Progress::Opened => if is_hunk_line(line) {
                Progress::Inside
            } else {
                Progress::Broken
            },
            Progress::Inside => if is_hunk_line(line) {
                Progress::Inside
            } else if is_hunk_header(line) {
                Progress::Opened
            } else if line == missing_newline_note() || line.len() == 0 {
                Progress::Closed
            } else {
                Progress::Broken
            },
            Progress::Closed => if line.len() == 0 {
                Progress::Closed
            } else {
                Progress::Broken
            },
            Progress::Broken => Progress::Broken,
        }
    }
}

/// The progress after the first `k` lines.
pub open spec fn progress(ended_lines: Seq<Seq<char>>, k: int) -> Progress
    decreases k,
{
    if k <= 0 {
        Progress::Start
    } else {
        advanced(progress(ended_lines, k - 1), ended_lines[k - 1])
    }
}

/// One or more hunks of one or more lines each, then perhaps the note on the missing newline
/// and empty lines.
pub open spec fn hunks_shaped(body: Seq<char>) -> bool {
    let parts = split(body, '\n');
    let at = progress(parts, parts.len() - 1);
    ||| parts.last().len() == 0 && (at == Progress::Inside || at == Progress::Closed)
    ||| parts.last() == missing_newline_note() && at == Progress::Inside
}

/// The lines of the text can be counted in 32 bits.
pub open spec fn is_countable(s: Seq<char>) -> bool {
    split(s, '\n').len() <= u32::MAX
}

/// The lines of the text can be counted, and it is, up to its end, a notice about binary files,
/// or tells of a renamed file, or holds two header lines and the hunks behind them.
pub open spec fn well_shaped(s: Seq<char>) -> bool {
    is_countable(s) && if starts_with_binary_notice(s) {
        line_end_after(s, "Binary files "@, 0) == Some(s.len() as int)
    } else if rename_end(s) is Some {
        rename_end(s) == Some(s.len() as int)
    } else {
        match header_end(s) {
            Some(i) => hunks_shaped(s.skip(i)),
            None => false,
        }
    }
}

/// Whether the character is white space.
fn space(c: char) -> (r: bool)
    ensures
        r == is_space(c),
{
    ('\u{9}' <= c && c <= '\u{d}') || c == ' ' || c == '\u{85}' || c == '\u{a0}' || c == '\u{1680}'
        || ('\u{2000}' <= c && c <= '\u{200a}') || c == '\u{2028}' || c == '\u{2029}' || c
        == '\u{202f}' || c == '\u{205f}' || c == '\u{3000}'
}

/// The position behind the line of which the rest, from `i` on, starts with `word`.
fn find_line_end(s: &Vec<char>, word: &str, i: usize) -> (r: Option<usize>)
    requires
        i <= s@.len(),
    ensures
        match r {
            Some(j) => line_end_after(s@, word@, i as int) == Some(j as int) && i + word@.len() < j
                && j <= s@.len(),
            None => line_end_after(s@, word@, i as int) is None,
        },
{
    let wanted = to_chars(word);
    let newline = to_chars("\n");
    if !stands_at(s, &wanted, i) {
        return None;
    }
    proof {
        assert(s@.len() == s.len());
        lemma_first_match(s@, "\n"@, i + word@.len());
        reveal_strlit("\n");
    }
    match find(s, &newline, i + wanted.len()) {
        Some(j) => Some(j + 1),
        None => None,
    }
}

/// The first match lies in the text.
proof fn lemma_match_fits(s: Seq<char>, pat: Seq<char>, from: int)
    requires
        0 <= from,
    ensures
        first_match(s, pat, from) matches Some(i) ==> from <= i && i + pat.len() <= s.len(),
{
    lemma_first_match(s, pat, from);
}

/// Whether the names are those of a notice about binary files.
fn names_are_told_apart(names: &Vec<char>) -> (r: bool)
    ensures
        r == names_differ(names@),
{
    let mut n: usize = names.len();
    assert(names@.take(n as int) =~= names@);
    while n > 0 && space(names[n - 1])
        invariant
            n <= names@.len(),
            trimmed_end(names@.take(n as int)) == trimmed_end(names@),
        decreases n,
    {
        assert(names@.take(n as int).drop_last() =~= names@.take(n - 1));
        n = n - 1;
    }
    let t = to_chars(from_chars(names, 0, n).as_str());
    assert(t@ =~= names@.take(n as int));
    let suffix = to_chars(" differ");
    if t.len() < suffix.len() {
        return false;
    }
    let end: usize = t.len() - suffix.len();
    if !stands_at(&t, &suffix, end) {
        return false;
    }
    let both = to_chars(from_chars(&t, 0, end).as_str());
    assert(both@ =~= t@.take(end as int));
    find(&both, &to_chars(" and "), 0).is_some()
}

/// The position behind the lines that tell of a file renamed and otherwise unchanged.
fn find_rename_end(s: &Vec<char>) -> (r: Option<usize>)
    ensures
        match r {
            Some(j) => rename_end(s@) == Some(j as int),
            None => rename_end(s@) is None,
        },
{
    let mark = to_chars("\nsimilarity index 100%\n");
    proof {
        assert(s@.len() == s.len());
        lemma_match_fits(s@, mark@, 0);
    }
    match find(s, &mark, 0) {
        Some(i) => match find_line_end(s, "rename from ", i + mark.len()) {
            Some(j) => find_line_end(s, "rename to ", j),
            None => None,
        },
        None => None,
    }
}

/// The position behind the two header lines.
fn find_header_end(s: &Vec<char>) -> (r: Option<usize>)
    ensures
        match r {
            Some(j) => header_end(s@) == Some(j as int) && j <= s@.len(),
            None => header_end(s@) is None,
        },
{
    let mark = to_chars("--- ");
    proof {
        lemma_match_fits(s@, mark@, 0);
    }
    match find(s, &mark, 0) {
        Some(i) => match find_line_end(s, "--- ", i) {
            Some(j) => find_line_end(s, "", j),
            None => None,
        },
        None => None,
    }
}

/// The position behind the number at `i`, if there is one and it fits in 64 bits.
fn find_number_end(s: &Vec<char>, i: usize) -> (r: Option<usize>)
    requires
        i <= s@.len(),
    ensures
        match r {
            Some(j) => number_end(s@, i as int) == Some(j as int) && j <= s@.len(),
            None => number_end(s@, i as int) is None,
        },
{
    let mut value: u64 = 0;
    let mut too_large = false;
    let mut j: usize = i;
    assert(s@.subrange(i as int, i as int) =~= Seq::empty());
    while j < s.len() && '0' <= s[j] && s[j] <= '9'
        invariant
            i <= j <= s@.len(),
            digits_end(s@, i as int) == digits_end(s@, j as int),
            too_large == (number(s@.subrange(i as int, j as int)) > u64::MAX),
            !too_large ==> value == number(s@.subrange(i as int, j as int)),
        decreases s.len() - j,
    {
        let ghost before = s@.subrange(i as int, j as int);
        assert(s@.subrange(i as int, j + 1).drop_last() =~= before);
        let digit: u64 = s[j] as u64 - '0' as u64;
        assert(number(s@.subrange(i as int, j + 1)) == number(before) * 10 + digit);
        if !too_large {
            if value > (u64::MAX - digit) / 10 {
                too_large = true;
            } else {
                value = value * 10 + digit;
            }
        }
        j = j + 1;
    }
    if i < j && !too_large {
        Some(j)
    } else {
        None
    }
}

/// The position behind the range at `i`.
fn find_range_end(s: &Vec<char>, i: usize) -> (r: Option<usize>)
    requires
        i <= s@.len(),
    ensures
        match r {
            Some(j) => range_end(s@, i as int) == Some(j as int) && j <= s@.len(),
            None => range_end(s@, i as int) is None,
        },
{
    proof {
        reveal_strlit(",");
        assert(s@.len() == s.len());
    }
    match find_number_end(s, i) {
        Some(j) => if stands_at(s, &to_chars(","), j) {
            match find_number_end(s, j + 1) {
                Some(k) => Some(k),
                None => Some(j),
            }
        } else {
            Some(j)
        },
        None => None,
    }
}

/// Whether the line is a hunk's first line.
fn looks_like_hunk_header(line: &Vec<char>) -> (r: bool)
    ensures
        r == is_hunk_header(line@),
{
    proof {
        reveal_strlit("@@ -");
        reveal_strlit(" +");
        assert(line@.len() == line.len());
    }
    if !stands_at(line, &to_chars("@@ -"), 0) {
        return false;
    }
    match find_range_end(line, 4) {
        Some(i) => if stands_at(line, &to_chars(" +"), i) {
            match find_range_end(line, i + 2) {
                Some(j) => stands_at(line, &to_chars(" @@"), j),
                None => false,
            }
        } else {
            false
        },
        None => false,
    }
}

/// Whether the line is a line of a hunk.
fn looks_like_hunk_line(line: &Vec<char>) -> (r: bool)
    ensures
        r == is_hunk_line(line@),
{
    (stands_at(line, &to_chars("+"), 0) && !stands_at(line, &to_chars("+++ "), 0)) || (stands_at(
        line,
        &to_chars("-"),
        0,
    ) && !stands_at(line, &to_chars("--- "), 0)) || stands_at(line, &to_chars(" "), 0)
}

/// Whether the line holds a carriage return.
fn holds_cr(line: &Vec<char>) -> (r: bool)
    ensures
        r == line@.contains('\r'),
{
    let mut i: usize = 0;
    while i < line.len()
        invariant
            i <= line@.len(),
            forall|j: int| 0 <= j < i ==> line@[j] != '\r',
        decreases line.len() - i,
    {
        if line[i] == '\r' {
            return true;
        }
        i = i + 1;
    }
    false
}

/// The progress that the next line makes.
fn advance(at: Progress, ended_line: &String) -> (r: Progress)
    ensures
        r == advanced(at, ended_line@),
{
    let text = trim_cr(ended_line);
    let line = to_chars(text.as_str());
    if holds_cr(&line) {
        return Progress::Broken;
    }
    match at {
        Progress::Start => if looks_like_hunk_header(&line) {
            Progress::Opened
        } else {
            Progress::Broken
        },
        Progress::Opened => if looks_like_hunk_line(&line) {
            Progress::Inside
        } else {
            Progress::Broken
        },
        Progress::Inside => if looks_like_hunk_line(&line) {
            Progress::Inside
        } else if looks_like_hunk_header(&line) {
            Progress::Opened
        } else if text == "\\ No newline at end of file".to_owned() || line.len() == 0 {
            Progress::Closed
        } else {
            Progress::Broken
        },
        Progress::Closed => if line.len() == 0 {
            Progress::Closed
        } else {
            Progress::Broken
        },
        Progress::Broken => Progress::Broken,
    }
}

/// Whether the lines behind the header lines are hunks and what may follow them.
fn has_shaped_hunks(body: &str) -> (r: bool)
    ensures
        r == hunks_shaped(body@),
{
    let parts = split_on(body, '\n');
    let ghost all = split(body@, '\n');
    proof {
        lemma_split_parts(body@, '\n');
        assert(all.len() == parts@.len());
    }
    let last: usize = parts.len() - 1;
    let mut at = Progress::Start;
    let mut k: usize = 0;
    while k < last
        invariant
            k <= last,
            last == parts@.len() - 1,
            texts(parts@) == all,
            at == progress(all, k as int),
        decreases last - k,
    {
        assert(all[k as int] == parts@[k as int]@);
        at = advance(at, &parts[k]);
        k = k + 1;
    }
    let rest = &parts[last];
    assert(all.last() == rest@);
    if rest.as_str().is_empty() {
        proof {
            reveal_strlit("\\ No newline at end of file");
        }
        at == Progress::Inside || at == Progress::Closed
    } else {
        *rest == "\\ No newline at end of file".to_owned() && at == Progress::Inside
    }
}

/// Whether the lines of the text can be counted in 32 bits.
fn can_count_lines(s: &Vec<char>) -> (r: bool)
    ensures
        r == is_countable(s@),
{
    let mut newlines: usize = 0;
    let mut i: usize = 0;
    assert(s@.take(0).len() == 0);
    while i < s.len()
        invariant
            i <= s@.len(),
            newlines <= i,
            split(s@.take(i as int), '\n').len() == newlines + 1,
        decreases s.len() - i,
    {
        proof {
            lemma_split_parts(s@.take(i as int), '\n');
        }
        assert(s@.take(i + 1).drop_last() =~= s@.take(i as int));
        if s[i] == '\n' {
            newlines = newlines + 1;
        }
        i = i + 1;
    }
    assert(s@.take(i as int) =~= s@);
    newlines < u32::MAX as usize
}

/// Whether the text has the shape of a patch file up to its end.
pub fn is_well_shaped(text: &str) -> (r: bool)
    ensures
        r == well_shaped(text@),
{
    let s = to_chars(text);
    if !can_count_lines(&s) {
        return false;
    }
    match find_line_end(&s, "Binary files ", 0) {
        Some(end) => {
            let from: usize = to_chars("Binary files ").len();
            let names = to_chars(from_chars(&s, from, end - 1).as_str());
            if names_are_told_apart(&names) {
                return end == s.len();
            }
        },
        None => {},
    }
    match find_rename_end(&s) {
        Some(end) => {
            return end == s.len();
        },
        None => {},
    }
    match find_header_end(&s) {
        Some(i) => {
            let body = from_chars(&s, i, s.len());
            assert(body@ =~= s@.skip(i as int));
            has_shaped_hunks(body.as_str())
        },
        None => false,
    }
}

/// The digit for a number below ten.
pub open spec fn digit(n: nat) -> char {
    if n == 0 {
        '0'
    } else if n == 1 {
        '1'
    } else if n == 2 {
        '2'
    } else if n == 3 {
        '3'
    } else if n == 4 {
        '4'
    } else if n == 5 {
        '5'
    } else if n == 6 {
        '6'
    } else if n == 7 {
        '7'
    } else if n == 8 {
        '8'
    } else {
        '9'
    }
}

/// The number written in base ten.
pub open spec fn decimal(n: nat) -> Seq<char>
    decreases n,
{
    if n < 10 {
        seq![digit(n)]
    } else {
        decimal(n / 10).push(digit(n % 10))
    }
}

/// The text writes the range: where it starts, a comma and how many lines it counts; the count
/// may be left out where it is one.
pub open spec fn writes_range(text: Seq<char>, r: LineRange) -> bool {
    ||| text == decimal(r.start as nat).push(',') + decimal(r.count as nat)
    ||| r.count == 1 && text == decimal(r.start as nat)
}

/// The text holds no character that ends lines.
pub open spec fn is_single(text: Seq<char>) -> bool {
    forall|i: int| 0 <= i < text.len() ==> #[trigger] text[i] != '\n' && text[i] != '\r'
}

/// The first line of a hunk, from its written ranges and a hint behind them.
pub open spec fn header_text(old: Seq<char>, new: Seq<char>, hint: Seq<char>) -> Seq<char> {
    seq!['@', '@', ' ', '-'] + old + seq![' ', '+'] + new + seq![' ', '@', '@'] + hint
}

/// The line is the first line of the hunk.
pub open spec fn writes_header(line: Seq<char>, h: HunkView) -> bool {
    exists|old: Seq<char>, new: Seq<char>, hint: Seq<char>|
        writes_range(old, h.old_range) && writes_range(new, h.new_range) && is_single(hint) && line
            == #[trigger] header_text(old, new, hint)
}

/// The line of a hunk with the sign that tells its side.
pub open spec fn line_text(l: HunkLineView) -> Seq<char> {
    match l {
        HunkLineView::Add(t) => seq!['+'] + t,
        HunkLineView::Remove(t) => seq!['-'] + t,
        HunkLineView::Context(t) => seq![' '] + t,
    }
}

/// The line of a hunk can be told from a header line: it is any text without line ends, the empty
/// one too, except that two more plus signs and a space do not follow a plus sign, nor two more
/// minus signs and a space a minus sign.
pub open spec fn can_be_told(l: HunkLineView) -> bool {
    match l {
        HunkLineView::Add(t) => is_single(t) && !stands(t, seq!['+', '+', ' '], 0),
        HunkLineView::Remove(t) => is_single(t) && !stands(t, seq!['-', '-', ' '], 0),
        HunkLineView::Context(t) => is_single(t),
    }
}

/// The lines of the first `k` hunks, of which the first lines are given.
pub open spec fn hunk_texts(
    hunks: Seq<HunkView>,
    headers: Seq<Seq<char>>,
    k: int,
) -> Seq<Seq<char>>
    decreases k,
{
    if k <= 0 {
        Seq::empty()
    } else {
        hunk_texts(hunks, headers, k - 1).push(headers[k - 1]) + hunks[k - 1].lines.map_values(
            |l: HunkLineView| line_text(l),
        )
    }
}

/// The hunks can be printed, with the given first lines.
pub open spec fn can_be_printed(hunks: Seq<HunkView>, headers: Seq<Seq<char>>) -> bool {
    &&& hunks.len() == headers.len()
    &&& hunks.len() > 0
    &&& forall|k: int|
        0 <= k < hunks.len() ==> writes_header(headers[k], #[trigger] hunks[k])
            && hunks[k].lines.len() > 0
    &&& forall|k: int, i: int|
        0 <= k < hunks.len() && 0 <= i < hunks[k].lines.len() ==> can_be_told(
            #[trigger] hunks[k].lines[i],
        )
}

/// The lines are the given ones, each of which may have a carriage return behind it.
pub open spec fn may_have_cr(lines: Seq<Seq<char>>, plain: Seq<Seq<char>>) -> bool {
    &&& lines.len() == plain.len()
    &&& forall|i: int|
        0 <= i < lines.len() ==> #[trigger] lines[i] == plain[i] || lines[i] == plain[i].push('\r')
}

/// The digits of a number are read back as the number.
proof fn lemma_decimal(n: nat)
    ensures
        decimal(n).len() > 0,
        forall|i: int| 0 <= i < decimal(n).len() ==> is_digit(#[trigger] decimal(n)[i]),
        number(decimal(n)) == n,
    decreases n,
{
    if n < 10 {
        let d = decimal(n);
        assert(d.drop_last() =~= Seq::<char>::empty());
        assert(number(d.drop_last()) == 0);
    } else {
        lemma_decimal(n / 10);
        let d = decimal(n);
        assert(d.drop_last() =~= decimal(n / 10));
        assert(number(d) == (n / 10) * 10 + n % 10);
    }
}

/// A number written in base ten is read back as that number.
pub proof fn law_numbers_are_read_back(n: nat)
    ensures
        number(decimal(n)) == n,
{
    lemma_decimal(n);
}

/// Digits end where they do.
proof fn lemma_digits_end(s: Seq<char>, i: int, end: int)
    requires
        0 <= i <= end <= s.len(),
        forall|j: int| i <= j < end ==> is_digit(#[trigger] s[j]),
        end < s.len() ==> !is_digit(s[end]),
    ensures
        digits_end(s, i) == end,
    decreases end - i,
{
    if i < end {
        assert(is_digit(s[i]));
        lemma_digits_end(s, i + 1, end);
    }
}

/// A written number is read.
proof fn lemma_number_end(a: Seq<char>, n: u64, b: Seq<char>)
    requires
        b.len() > 0,
        !is_digit(b[0]),
    ensures
        number_end(a + decimal(n as nat) + b, a.len() as int) == Some(
            (a.len() + decimal(n as nat).len()) as int,
        ),
{
    let d = decimal(n as nat);
    let s = a + d + b;
    let i = a.len() as int;
    let end = i + d.len();
    lemma_decimal(n as nat);
    assert forall|j: int| i <= j < end implies is_digit(#[trigger] s[j]) by {
        assert(s[j] == d[j - i]);
    }
    assert(s[end] == b[0]);
    lemma_digits_end(s, i, end);
    assert(s.subrange(i, end) =~= d);
}

/// A written range is read.
proof fn lemma_range_end(a: Seq<char>, text: Seq<char>, r: LineRange, b: Seq<char>)
    requires
        writes_range(text, r),
        b.len() > 0,
        b[0] == ' ',
    ensures
        range_end(a + text + b, a.len() as int) == Some((a.len() + text.len()) as int),
{
    reveal_strlit(",");
    let s = a + text + b;
    let first = decimal(r.start as nat);
    let second = decimal(r.count as nat);
    let j = (a.len() + first.len()) as int;
    if text == first.push(',') + second {
        let rest = seq![','] + second + b;
        assert(s =~= a + first + rest);
        lemma_number_end(a, r.start, rest);
        let front = a + first + seq![','];
        assert(s =~= front + second + b);
        lemma_number_end(front, r.count, b);
        assert(s[j] == ',');
        assert(s.subrange(j, j + 1) =~= ","@);
    } else {
        lemma_number_end(a, r.start, b);
        assert(s[j] == ' ');
        if matches_at(s, ","@, j) {
            assert(s.subrange(j, j + 1)[0] == s[j]);
        }
    }
}

/// The first line of a hunk is taken for one.
#[verifier::rlimit(40)]
proof fn lemma_header_read(h: HunkView, old: Seq<char>, new: Seq<char>, hint: Seq<char>)
    requires
        writes_range(old, h.old_range),
        writes_range(new, h.new_range),
    ensures
        is_hunk_header(header_text(old, new, hint)),
{
    let line = header_text(old, new, hint);
    let a = seq!['@', '@', ' ', '-'];
    let b = seq![' ', '+'];
    let c = seq![' ', '@', '@'];
    let i = 4 + old.len() as int;
    let j = i + 2 + new.len() as int;
    assert(matches_at(line, "@@ -"@, 0)) by {
        reveal_strlit("@@ -");
        assert(line.subrange(0, 4) =~= "@@ -"@);
    }
    assert(range_end(line, 4) == Some(i)) by {
        let rest = b + new + c + hint;
        assert(line =~= a + old + rest);
        assert(rest[0] == ' ');
        lemma_range_end(a, old, h.old_range, rest);
    }
    assert(matches_at(line, " +"@, i)) by {
        reveal_strlit(" +");
        assert(line.subrange(i, i + 2) =~= " +"@);
    }
    assert(range_end(line, i + 2) == Some(j)) by {
        let front = a + old + b;
        let rest = c + hint;
        assert(line =~= front + new + rest);
        assert(rest[0] == ' ');
        assert(front.len() == i + 2);
        lemma_range_end(front, new, h.new_range, rest);
    }
    assert(matches_at(line, " @@"@, j)) by {
        reveal_strlit(" @@");
        assert(line.subrange(j, j + 3) =~= " @@"@);
    }
}

/// A line that starts with another character than the signs of a hunk's lines is not taken for
/// one of those.
proof fn lemma_no_hunk_line(line: Seq<char>)
    requires
        line.len() > 0 ==> line[0] != '+' && line[0] != '-' && line[0] != ' ',
    ensures
        !is_hunk_line(line),
{
    reveal_strlit("+");
    reveal_strlit("-");
    reveal_strlit(" ");
    law_match_is_character_by_character(line, "+"@, 0);
    law_match_is_character_by_character(line, "-"@, 0);
    law_match_is_character_by_character(line, " "@, 0);
    assert("+"@[0] == '+' && "-"@[0] == '-' && " "@[0] == ' ');
}

/// The first line of a hunk is taken for one, and not for a further line of a hunk.
proof fn lemma_header_is_told(line: Seq<char>, h: HunkView)
    requires
        writes_header(line, h),
    ensures
        is_hunk_header(line),
        !is_hunk_line(line),
        is_single(line),
{
    let (old, new, hint) = choose|old: Seq<char>, new: Seq<char>, hint: Seq<char>|
        writes_range(old, h.old_range) && writes_range(new, h.new_range) && is_single(hint) && line
            == #[trigger] header_text(old, new, hint);
    lemma_header_read(h, old, new, hint);
    assert(line[0] == '@');
    lemma_no_hunk_line(line);
    lemma_range_single(old, h.old_range);
    lemma_range_single(new, h.new_range);
    lemma_single_parts(seq!['@', '@', ' ', '-'], old);
    lemma_single_parts(seq!['@', '@', ' ', '-'] + old, seq![' ', '+']);
    lemma_single_parts(seq!['@', '@', ' ', '-'] + old + seq![' ', '+'], new);
    lemma_single_parts(
        seq!['@', '@', ' ', '-'] + old + seq![' ', '+'] + new,
        seq![' ', '@', '@'],
    );
    lemma_single_parts(
        seq!['@', '@', ' ', '-'] + old + seq![' ', '+'] + new + seq![' ', '@', '@'],
        hint,
    );
}

/// Texts without line ends make one without them.
proof fn lemma_single_parts(a: Seq<char>, b: Seq<char>)
    requires
        is_single(a),
        is_single(b),
    ensures
        is_single(a + b),
{
    assert forall|i: int| 0 <= i < (a + b).len() implies #[trigger] (a + b)[i] != '\n' && (a
        + b)[i] != '\r' by {
        if i < a.len() {
            assert((a + b)[i] == a[i]);
        } else {
            assert((a + b)[i] == b[i - a.len()]);
        }
    }
}

/// A written range holds digits and commas.
proof fn lemma_range_single(text: Seq<char>, r: LineRange)
    requires
        writes_range(text, r),
    ensures
        is_single(text),
{
    lemma_decimal(r.start as nat);
    lemma_decimal(r.count as nat);
    let first = decimal(r.start as nat);
    let second = decimal(r.count as nat);
    assert forall|i: int| 0 <= i < text.len() implies #[trigger] text[i] != '\n' && text[i]
        != '\r' by {
        if i < first.len() {
            assert(text[i] == first[i]);
            assert(is_digit(first[i]));
        } else if i > first.len() {
            assert(text[i] == second[i - first.len() - 1]);
            assert(is_digit(second[i - first.len() - 1]));
        }
    }
}

/// A further line of a hunk is taken for one.
proof fn lemma_line_is_told(l: HunkLineView)
    requires
        can_be_told(l),
    ensures
        is_hunk_line(line_text(l)),
        is_single(line_text(l)),
{
    reveal_strlit("+");
    reveal_strlit("-");
    reveal_strlit(" ");
    reveal_strlit("+++ ");
    reveal_strlit("--- ");
    let line = line_text(l);
    law_match_is_character_by_character(line, "+"@, 0);
    law_match_is_character_by_character(line, "-"@, 0);
    law_match_is_character_by_character(line, " "@, 0);
    law_match_is_character_by_character(line, "+++ "@, 0);
    law_match_is_character_by_character(line, "--- "@, 0);
    match l {
        HunkLineView::Add(t) => {
            assert(line[0] == '+');
            if stands(line, "+++ "@, 0) {
                assert("+++ "@[1] == '+' && "+++ "@[2] == '+' && "+++ "@[3] == ' ');
                assert(line[0int + 1] == '+' && line[0int + 2] == '+' && line[0int + 3] == ' ');
                assert(stands(t, seq!['+', '+', ' '], 0));
            }
            assert(stands(line, "+"@, 0));
        },
        HunkLineView::Remove(t) => {
            assert(line[0] == '-');
            if stands(line, "--- "@, 0) {
                assert("--- "@[1] == '-' && "--- "@[2] == '-' && "--- "@[3] == ' ');
                assert(line[0int + 1] == '-' && line[0int + 2] == '-' && line[0int + 3] == ' ');
                assert(stands(t, seq!['-', '-', ' '], 0));
            }
            assert(stands(line, "-"@, 0));
        },
        HunkLineView::Context(t) => {
            assert(line[0] == ' ');
            assert(stands(line, " "@, 0));
        },
    }
}

/// A line without line ends is read as it is, with or without a carriage return behind it.
proof fn lemma_line_read(plain: Seq<char>, line: Seq<char>)
    requires
        is_single(plain),
        line == plain || line == plain.push('\r'),
    ensures
        without_cr(line) == plain,
        !plain.contains('\r'),
        !line.contains('\n'),
{
    if line == plain.push('\r') {
        assert(line.drop_last() =~= plain);
    } else if plain.len() > 0 {
        assert(plain[plain.len() - 1] != '\r');
    }
}

/// The progress depends on the lines before alone.
proof fn lemma_progress_prefix(a: Seq<Seq<char>>, b: Seq<Seq<char>>, k: int)
    requires
        0 <= k <= a.len(),
        k <= b.len(),
        forall|i: int| 0 <= i < k ==> a[i] == b[i],
    ensures
        progress(a, k) == progress(b, k),
    decreases k,
{
    if k > 0 {
        lemma_progress_prefix(a, b, k - 1);
    }
}

/// The lines of a hunk bring the progress inside it.
proof fn lemma_progress_lines(
    lines: Seq<Seq<char>>,
    plain: Seq<Seq<char>>,
    from: int,
    hunk: Seq<HunkLineView>,
    k: int,
)
    requires
        may_have_cr(lines, plain),
        0 <= from,
        0 <= k <= hunk.len(),
        from + hunk.len() <= lines.len(),
        progress(lines, from) == Progress::Opened,
        forall|i: int| 0 <= i < hunk.len() ==> can_be_told(#[trigger] hunk[i]),
        forall|i: int| 0 <= i < hunk.len() ==> plain[from + i] == line_text(#[trigger] hunk[i]),
    ensures
        progress(lines, from + k) == if k == 0 {
            Progress::Opened
        } else {
            Progress::Inside
        },
    decreases k,
{
    if k > 0 {
        lemma_progress_lines(lines, plain, from, hunk, k - 1);
        let at = from + k - 1;
        assert(can_be_told(hunk[k - 1]));
        lemma_line_is_told(hunk[k - 1]);
        assert(plain[at] == line_text(hunk[k - 1]));
        assert(lines[at] == plain[at] || lines[at] == plain[at].push('\r'));
        lemma_line_read(plain[at], lines[at]);
    }
}

/// Printed hunks bring the progress inside the last of them.
proof fn lemma_progress_hunks(
    hunks: Seq<HunkView>,
    headers: Seq<Seq<char>>,
    lines: Seq<Seq<char>>,
    plain: Seq<Seq<char>>,
    k: int,
)
    requires
        can_be_printed(hunks, headers),
        may_have_cr(lines, plain),
        0 <= k <= hunks.len(),
        hunk_texts(hunks, headers, k).len() <= lines.len(),
        plain.take(hunk_texts(hunks, headers, k).len() as int) == hunk_texts(hunks, headers, k),
    ensures
        progress(lines, hunk_texts(hunks, headers, k).len() as int) == if k == 0 {
            Progress::Start
        } else {
            Progress::Inside
        },
    decreases k,
{
    if k > 0 {
        let before = hunk_texts(hunks, headers, k - 1);
        let all = hunk_texts(hunks, headers, k);
        let h = hunks[k - 1];
        let n = before.len() as int;
        assert(plain.take(n) =~= before) by {
            assert(plain.take(n) =~= plain.take(all.len() as int).take(n));
            assert(all.take(n) =~= before);
        }
        lemma_progress_hunks(hunks, headers, lines, plain, k - 1);
        assert(plain[n] == plain.take(all.len() as int)[n]);
        assert(plain[n] == headers[k - 1]);
        assert(writes_header(headers[k - 1], h));
        lemma_header_is_told(headers[k - 1], h);
        assert(lines[n] == plain[n] || lines[n] == plain[n].push('\r'));
        lemma_line_read(plain[n], lines[n]);
        assert(progress(lines, n + 1) == Progress::Opened);
        assert forall|i: int| 0 <= i < h.lines.len() implies can_be_told(
            #[trigger] h.lines[i],
        ) by {
            assert(can_be_told(hunks[k - 1].lines[i]));
        }
        assert forall|i: int| 0 <= i < h.lines.len() implies plain[n + 1 + i] == line_text(
            #[trigger] h.lines[i],
        ) by {
            assert(plain[n + 1 + i] == plain.take(all.len() as int)[n + 1 + i]);
            assert(all[n + 1 + i] == h.lines.map_values(|l: HunkLineView| line_text(l))[i]);
        }
        lemma_progress_lines(lines, plain, n + 1, h.lines, h.lines.len() as int);
    }
}

/// What may follow the hunks: the note on the missing newline, or nothing, and empty lines.
pub open spec fn closing_lines(note: bool, empty: nat) -> Seq<Seq<char>> {
    let blank = Seq::new(empty, |i: int| Seq::<char>::empty());
    if note {
        seq!["\\ No newline at end of file"@] + blank
    } else {
        blank
    }
}

/// What follows the hunks keeps their shape.
proof fn lemma_progress_closing(
    lines: Seq<Seq<char>>,
    plain: Seq<Seq<char>>,
    n: int,
    note: bool,
    empty: nat,
    k: int,
)
    requires
        may_have_cr(lines, plain),
        0 <= n,
        n + closing_lines(note, empty).len() == lines.len(),
        0 <= k <= closing_lines(note, empty).len(),
        plain.skip(n) == closing_lines(note, empty),
        progress(lines, n) == Progress::Inside,
    ensures
        progress(lines, n + k) == if k == 0 {
            Progress::Inside
        } else {
            Progress::Closed
        },
    decreases k,
{
    if k > 0 {
        lemma_progress_closing(lines, plain, n, note, empty, k - 1);
        let at = n + k - 1;
        let line = closing_lines(note, empty)[k - 1];
        assert(plain[at] == plain.skip(n)[k - 1]);
        assert(lines[at] == plain[at] || lines[at] == plain[at].push('\r'));
        reveal_strlit("\\ No newline at end of file");
        lemma_note(line);
        lemma_line_read(plain[at], lines[at]);
    }
}

/// The note on the missing newline and the empty line are not taken for lines of hunks.
proof fn lemma_note(line: Seq<char>)
    requires
        line == "\\ No newline at end of file"@ || line.len() == 0,
    ensures
        is_single(line),
        !is_hunk_line(line),
        !is_hunk_header(line),
{
    reveal_strlit("\\ No newline at end of file");
    reveal_strlit("@@ -");
    lemma_no_hunk_line(line);
    law_match_is_character_by_character(line, "@@ -"@, 0);
    assert("@@ -"@[0] == '@');
}

/// Every line of what is printed is free of line ends.
proof fn lemma_printed_single(hunks: Seq<HunkView>, headers: Seq<Seq<char>>, k: int)
    requires
        can_be_printed(hunks, headers),
        0 <= k <= hunks.len(),
    ensures
        forall|i: int|
            0 <= i < hunk_texts(hunks, headers, k).len() ==> {
                let line = #[trigger] hunk_texts(hunks, headers, k)[i];
                &&& is_single(line)
                &&& line.len() > 0
                &&& line[0] == '@' || line[0] == '+' || line[0] == '-' || line[0] == ' '
            },
    decreases k,
{
    if k > 0 {
        let before = hunk_texts(hunks, headers, k - 1);
        let all = hunk_texts(hunks, headers, k);
        let h = hunks[k - 1];
        lemma_printed_single(hunks, headers, k - 1);
        assert forall|i: int| 0 <= i < all.len() implies {
            let line = #[trigger] all[i];
            &&& is_single(line)
            &&& line.len() > 0
            &&& line[0] == '@' || line[0] == '+' || line[0] == '-' || line[0] == ' '
        } by {
            if i < before.len() {
                assert(all[i] == before[i]);
            } else if i == before.len() {
                assert(writes_header(headers[k - 1], h));
                lemma_header_is_told(headers[k - 1], h);
                assert(all[i] == headers[k - 1]);
            } else {
                let l = h.lines[i - before.len() - 1];
                assert(can_be_told(hunks[k - 1].lines[i - before.len() - 1]));
                lemma_line_is_told(l);
                assert(all[i] == line_text(l));
            }
        }
    }
}

/// The lines of printed hunks and what may follow them, each ended by a newline, have the shape
/// of hunks.
proof fn lemma_printed_hunks(
    hunks: Seq<HunkView>,
    headers: Seq<Seq<char>>,
    note: bool,
    empty: nat,
    lines: Seq<Seq<char>>,
)
    requires
        can_be_printed(hunks, headers),
        may_have_cr(
            lines,
            hunk_texts(hunks, headers, hunks.len() as int) + closing_lines(note, empty),
        ),
    ensures
        forall|i: int| 0 <= i < lines.len() ==> !(#[trigger] lines[i]).contains('\n'),
        hunks_shaped(unlines(lines)),
{
    let own = hunk_texts(hunks, headers, hunks.len() as int);
    let close = closing_lines(note, empty);
    let plain = own + close;
    let n = own.len() as int;
    lemma_printed_single(hunks, headers, hunks.len() as int);
    assert forall|i: int| 0 <= i < lines.len() implies !(#[trigger] lines[i]).contains('\n') by {
        if i < n {
            assert(plain[i] == own[i]);
        } else {
            assert(plain[i] == close[i - n]);
            lemma_note(close[i - n]);
        }
        lemma_line_read(plain[i], lines[i]);
    }
    assert(plain.take(n) =~= own);
    assert(plain.skip(n) =~= close);
    lemma_progress_hunks(hunks, headers, lines, plain, hunks.len() as int);
    lemma_progress_closing(lines, plain, n, note, empty, close.len() as int);
    lemma_split_unlines(lines);
    let parts = split(unlines(lines), '\n');
    assert(parts == lines.push(Seq::empty()));
    lemma_progress_prefix(parts, lines, lines.len() as int);
}

/// No line holds a newline.
pub open spec fn are_lines(lines: Seq<Seq<char>>) -> bool {
    forall|i: int| 0 <= i < lines.len() ==> !(#[trigger] lines[i]).contains('\n')
}

/// What stands in a text of lines, and holds no newline, stands in one of the lines.
proof fn lemma_stands_in_a_line(
    lines: Seq<Seq<char>>,
    rest: Seq<char>,
    pat: Seq<char>,
    q: int,
) -> (place: (int, int))
    requires
        are_lines(lines),
        pat.len() > 0,
        !pat.contains('\n'),
        stands(unlines(lines) + rest, pat, q),
        0 <= q < unlines(lines).len(),
    ensures
        0 <= place.0 < lines.len(),
        stands(lines[place.0], pat, place.1),
    decreases lines.len(),
{
    let init = lines.drop_last();
    let last = lines.last();
    let head = unlines(init);
    let all = unlines(lines) + rest;
    let m = head.len() as int;
    assert(all =~= head + (last + seq!['\n'] + rest));
    assert(are_lines(init)) by {
        assert forall|i: int| 0 <= i < init.len() implies !(#[trigger] init[i]).contains('\n') by {
            assert(init[i] == lines[i]);
        }
    }
    if q < m {
        lemma_stands_in_a_line(init, last + seq!['\n'] + rest, pat, q)
    } else {
        if q + pat.len() > m + last.len() {
            let j = m + last.len() - q;
            assert(all[q + j] == '\n');
            assert(all[q + j] == pat[j]);
            assert(pat.contains(pat[j]));
        }
        assert forall|j: int| 0 <= j < pat.len() implies last[q - m + j] == #[trigger] pat[j] by {
            assert(all[q + j] == pat[j]);
        }
        (lines.len() - 1, q - m)
    }
}

/// What stands between two newlines in a text of lines is one of the lines.
proof fn lemma_whole_line(lines: Seq<Seq<char>>, w: Seq<char>, i: int) -> (k: int)
    requires
        are_lines(lines),
        !w.contains('\n'),
        stands(unlines(lines), seq!['\n'] + w + seq!['\n'], i),
    ensures
        0 <= k < lines.len(),
        lines[k] == w,
    decreases lines.len(),
{
    let pat = seq!['\n'] + w + seq!['\n'];
    let all = unlines(lines);
    let init = lines.drop_last();
    let last = lines.last();
    let head = unlines(init);
    let m = head.len() as int;
    assert(are_lines(init)) by {
        assert forall|j: int| 0 <= j < init.len() implies !(#[trigger] init[j]).contains('\n') by {
            assert(init[j] == lines[j]);
        }
    }
    assert(!lines[lines.len() - 1].contains('\n'));
    assert(pat[0] == '\n' && pat[w.len() as int + 1] == '\n');
    assert(all[i + 0] == '\n');
    let end = i + w.len() + 1;
    assert(all[i + (w.len() as int + 1)] == '\n');
    if end < m {
        assert forall|j: int| 0 <= j < pat.len() implies head[i + j] == #[trigger] pat[j] by {
            assert(all[i + j] == head[i + j]);
        }
        lemma_whole_line(init, w, i)
    } else {
        if end < m + last.len() {
            assert(all[end] == last[end - m]);
            assert(last.contains(last[end - m]));
        }
        assert(end == m + last.len());
        if i >= m {
            assert(all[i] == last[i - m]);
            assert(last.contains(last[i - m]));
        }
        if i < m - 1 {
            lemma_ends_in_newline(init);
            assert(all[m - 1] == '\n');
            let j = m - 1 - i;
            assert(all[i + j] == pat[j]);
            assert(pat[j] == w[j - 1]);
            assert(w.contains(w[j - 1]));
        }
        assert(last =~= w) by {
            assert forall|j: int| 0 <= j < w.len() implies last[j] == w[j] by {
                assert(all[i + (j + 1)] == pat[j + 1]);
                assert(all[m + j] == last[j]);
            }
        }
        lines.len() - 1
    }
}

/// A text of lines ends in a newline.
proof fn lemma_ends_in_newline(lines: Seq<Seq<char>>)
    requires
        unlines(lines).len() > 0,
    ensures
        unlines(lines).last() == '\n',
{
}

/// The lines before the header lines: none of them holds what starts those, tells of a renamed
/// file that is otherwise unchanged, or, as the first, is a notice about binary files.
pub open spec fn is_preamble(lines: Seq<Seq<char>>) -> bool {
    &&& are_lines(lines)
    &&& forall|k: int, i: int|
        0 <= k < lines.len() ==> !#[trigger] stands(lines[k], "--- "@, i)
    &&& forall|k: int| 0 <= k < lines.len() ==> #[trigger] lines[k] != "similarity index 100%"@
    &&& lines.len() > 0 ==> !stands(lines[0], "Binary files "@, 0)
}

/// The two header lines, with the given names.
pub open spec fn header_lines(old: Seq<char>, new: Seq<char>) -> Seq<Seq<char>> {
    seq![seq!['-', '-', '-', ' '] + old, seq!['+', '+', '+', ' '] + new]
}

/// The first newline behind a line.
proof fn lemma_line_end(s: Seq<char>, word: Seq<char>, i: int, line: Seq<char>)
    requires
        0 <= i,
        i + line.len() < s.len(),
        s.subrange(i, i + line.len()) == line,
        s[i + line.len()] == '\n',
        !line.contains('\n'),
        word.len() <= line.len(),
        line.take(word.len() as int) == word,
    ensures
        line_end_after(s, word, i) == Some(i + line.len() + 1),
{
    reveal_strlit("\n");
    let end = i + line.len();
    assert(s.subrange(i, i + word.len()) =~= line.take(word.len() as int));
    assert(s.subrange(end, end + 1) =~= "\n"@);
    lemma_first_match(s, "\n"@, i + word.len());
    assert(matches_at(s, "\n"@, end));
    match first_match(s, "\n"@, i + word.len()) {
        Some(j) => {
            if j < end {
                assert(s.subrange(j, j + 1)[0] == s[j]);
                assert(s[j] == '\n');
                assert(s.subrange(i, i + line.len())[j - i] == s[j]);
                assert(line.contains(line[j - i]));
            }
        },
        None => {},
    }
}

/// A line of two parts without newlines has none.
proof fn lemma_line_of_parts(a: Seq<char>, b: Seq<char>)
    requires
        !a.contains('\n'),
        !b.contains('\n'),
    ensures
        !(a + b).contains('\n'),
{
    if (a + b).contains('\n') {
        let j = choose|j: int| 0 <= j < (a + b).len() && (a + b)[j] == '\n';
        if j < a.len() {
            assert(a[j] == '\n');
        } else {
            assert(b[j - a.len()] == '\n');
        }
    }
}

/// The text of two lines.
proof fn lemma_two_lines(one: Seq<char>, two: Seq<char>)
    ensures
        unlines(seq![one, two]) == one + seq!['\n'] + two + seq!['\n'],
{
    let both = seq![one, two];
    lemma_first_of_lines(both);
    let last = both.skip(1);
    assert(last =~= seq![two]);
    lemma_first_of_lines(last);
    assert(last.skip(1) =~= Seq::<Seq<char>>::empty());
    assert(unlines(last.skip(1)) =~= Seq::<char>::empty());
    assert(unlines(both) =~= one + seq!['\n'] + two + seq!['\n']);
}

/// What starts the header lines is not found in a preamble.
proof fn lemma_mark_found(pre: Seq<Seq<char>>, rest: Seq<char>)
    requires
        is_preamble(pre),
        rest.len() >= 4,
        rest.take(4) == "--- "@,
    ensures
        first_match(unlines(pre) + rest, "--- "@, 0) == Some(unlines(pre).len() as int),
{
    reveal_strlit("--- ");
    let mark = "--- "@;
    let a = unlines(pre).len() as int;
    let s = unlines(pre) + rest;
    assert(s.subrange(a, a + 4) =~= rest.take(4));
    assert(matches_at(s, mark, a));
    lemma_first_match(s, mark, 0);
    let at = first_match(s, mark, 0)->0;
    if at < a {
        law_match_is_character_by_character(s, mark, at);
        let place = lemma_stands_in_a_line(pre, rest, mark, at);
        assert(!stands(pre[place.0], "--- "@, place.1));
    }
}

/// The header lines behind a preamble are found, and what follows them is the rest.
proof fn lemma_headers_found(
    pre: Seq<Seq<char>>,
    old: Seq<char>,
    new: Seq<char>,
    body: Seq<char>,
)
    requires
        is_preamble(pre),
        !old.contains('\n'),
        !new.contains('\n'),
    ensures
        ({
            let s = unlines(pre + header_lines(old, new)) + body;
            &&& header_end(s) is Some
            &&& s.skip(header_end(s)->0) == body
        }),
{
    let mark = seq!['-', '-', '-', ' '];
    let signs = seq!['+', '+', '+', ' '];
    let one = mark + old;
    let two = signs + new;
    let front = unlines(pre);
    let s = unlines(pre + header_lines(old, new)) + body;
    let a = front.len() as int;
    let b = a + one.len() + 1;
    let rest = one + seq!['\n'] + two + seq!['\n'] + body;
    assert("--- "@ == mark) by {
        reveal_strlit("--- ");
        assert("--- "@ =~= mark);
    }
    lemma_unlines_concat(pre, header_lines(old, new));
    lemma_two_lines(one, two);
    assert(s =~= front + rest);
    assert(rest.take(4) =~= mark);
    lemma_mark_found(pre, rest);
    lemma_line_of_parts(mark, old);
    lemma_line_of_parts(signs, new);
    assert(line_end_after(s, "--- "@, a) == Some(b)) by {
        assert(s.subrange(a, a + one.len()) =~= one);
        assert(s[a + one.len()] == '\n');
        assert(one.take(4) =~= mark);
        lemma_line_end(s, mark, a, one);
    }
    assert(line_end_after(s, ""@, b) == Some(b + two.len() + 1)) by {
        reveal_strlit("");
        assert(s.subrange(b, b + two.len()) =~= two);
        assert(s[b + two.len()] == '\n');
        assert(two.take(0) =~= ""@);
        lemma_line_end(s, ""@, b, two);
    }
    assert(s.skip(b + two.len() + 1) =~= body);
}

/// A text whose first line does not start with the words of a notice about binary files is none.
proof fn lemma_no_notice(first: Seq<char>, rest: Seq<char>)
    requires
        !stands(first, "Binary files "@, 0),
    ensures
        !starts_with_binary_notice(first + seq!['\n'] + rest),
{
    reveal_strlit("Binary files ");
    let s = first + seq!['\n'] + rest;
    let word = "Binary files "@;
    law_match_is_character_by_character(s, word, 0);
    if stands(s, word, 0) {
        if first.len() < word.len() {
            let j = first.len() as int;
            assert(word[j] != '\n');
            assert(s[0 + j] == word[j]);
        }
        assert forall|j: int| 0 <= j < word.len() implies first[0 + j] == #[trigger] word[j] by {
            assert(s[0 + j] == word[j]);
        }
    }
}

/// The lines of a text of lines: its first line, and the rest.
proof fn lemma_first_of_lines(lines: Seq<Seq<char>>)
    requires
        lines.len() > 0,
    ensures
        unlines(lines) == lines[0] + seq!['\n'] + unlines(lines.skip(1)),
{
    assert(lines =~= seq![lines[0]] + lines.skip(1));
    lemma_unlines_concat(seq![lines[0]], lines.skip(1));
    let one = seq![lines[0]];
    assert(one.drop_last() =~= Seq::<Seq<char>>::empty());
    assert(unlines(one.drop_last()) =~= Seq::<char>::empty());
    assert(unlines(one) =~= lines[0] + seq!['\n']);
}

/// The text tells of no renamed file where no line of it does.
proof fn lemma_no_rename(lines: Seq<Seq<char>>, s: Seq<char>)
    requires
        are_lines(lines),
        forall|k: int| 0 <= k < lines.len() ==> #[trigger] lines[k] != "similarity index 100%"@,
        s.len() <= unlines(lines).len(),
        unlines(lines).take(s.len() as int) == s,
    ensures
        rename_end(s) is None,
{
    reveal_strlit("\nsimilarity index 100%\n");
    reveal_strlit("similarity index 100%");
    let mark = "\nsimilarity index 100%\n"@;
    let w = "similarity index 100%"@;
    assert(mark =~= seq!['\n'] + w + seq!['\n']);
    lemma_first_match(s, mark, 0);
    if first_match(s, mark, 0) is Some {
        let i = first_match(s, mark, 0)->0;
        law_match_is_character_by_character(s, mark, i);
        let all = unlines(lines);
        assert forall|j: int| 0 <= j < mark.len() implies all[i + j] == #[trigger] mark[j] by {
            assert(s[i + j] == mark[j]);
            assert(all.take(s.len() as int)[i + j] == all[i + j]);
        }
        let k = lemma_whole_line(lines, w, i);
    }
}

/// Reading refuses no patch for the shape of its text: whatever the preamble, the names in the
/// header lines and the hunks are, the text made of the preamble, the two header lines, one or
/// more hunks, and perhaps the note on the missing newline and empty lines, is well shaped. Each
/// hunk is printed as its ranges and one or more lines, each with the sign that tells its side in
/// front of any text without line ends, the empty one too; carriage returns may stand before the
/// newlines of these lines, and the note may come without a newline at the end of the text. Left
/// out are an added line that starts with two plus signs and a space, and a removed one that
/// starts with two minus signs and a space, which the parser takes for header lines, and texts
/// with more lines than it can count.
pub proof fn law_printed_patches_are_well_shaped(
    preamble: Seq<Seq<char>>,
    old: Seq<char>,
    new: Seq<char>,
    hunks: Seq<HunkView>,
    headers: Seq<Seq<char>>,
    note: bool,
    empty: nat,
    lines: Seq<Seq<char>>,
)
    requires
        is_preamble(preamble),
        !old.contains('\n'),
        !new.contains('\n'),
        can_be_printed(hunks, headers),
        may_have_cr(
            lines,
            hunk_texts(hunks, headers, hunks.len() as int) + closing_lines(note, empty),
        ),
        preamble.len() + 2 + lines.len() < u32::MAX,
    ensures
        ({
            let s = unlines(preamble + header_lines(old, new) + lines);
            &&& well_shaped(s)
            &&& note && empty == 0 && lines.last() == "\\ No newline at end of file"@
                ==> well_shaped(s.drop_last())
        }),
{
    let front = preamble + header_lines(old, new);
    let all = front + lines;
    let s = unlines(all);
    lemma_printed_hunks(hunks, headers, note, empty, lines);
    lemma_body_lines(hunks, headers, note, empty, lines);
    lemma_front_lines(preamble, old, new);
    lemma_lines_of_both(front, lines);
    lemma_unlines_concat(front, lines);
    lemma_split_unlines(all);
    assert(unlines(lines).take(unlines(lines).len() as int) =~= unlines(lines));
    lemma_assembled(preamble, old, new, lines, unlines(lines));
    if note && empty == 0 && lines.last() == "\\ No newline at end of file"@ {
        let body = unlines(lines).drop_last();
        lemma_unended_note(hunks, headers, lines);
        assert(unlines(lines).len() > 0);
        assert(s.drop_last() =~= unlines(front) + body);
        assert(unlines(lines).take(body.len() as int) =~= body);
        lemma_unended(all);
        lemma_assembled(preamble, old, new, lines, body);
    }
}

/// Two lists of lines make one.
proof fn lemma_lines_of_both(a: Seq<Seq<char>>, b: Seq<Seq<char>>)
    requires
        are_lines(a),
        are_lines(b),
    ensures
        are_lines(a + b),
{
    assert forall|i: int| 0 <= i < (a + b).len() implies !(#[trigger] (a + b)[i]).contains(
        '\n',
    ) by {
        if i < a.len() {
            assert((a + b)[i] == a[i]);
        } else {
            assert((a + b)[i] == b[i - a.len()]);
        }
    }
}

/// A preamble, two header lines and what has the shape of hunks make a well-shaped text.
proof fn lemma_assembled(
    pre: Seq<Seq<char>>,
    old: Seq<char>,
    new: Seq<char>,
    lines: Seq<Seq<char>>,
    body: Seq<char>,
)
    requires
        is_preamble(pre),
        !old.contains('\n'),
        !new.contains('\n'),
        are_lines(lines),
        forall|k: int| 0 <= k < lines.len() ==> #[trigger] lines[k] != "similarity index 100%"@,
        body.len() <= unlines(lines).len(),
        unlines(lines).take(body.len() as int) == body,
        hunks_shaped(body),
        is_countable(unlines(pre + header_lines(old, new)) + body),
    ensures
        well_shaped(unlines(pre + header_lines(old, new)) + body),
{
    let front = pre + header_lines(old, new);
    let all = front + lines;
    let s = unlines(front) + body;
    lemma_headers_found(pre, old, new, body);
    lemma_front_lines(pre, old, new);
    assert(rename_end(s) is None) by {
        lemma_lines_of_both(front, lines);
        assert forall|k: int| 0 <= k < all.len() implies #[trigger] all[k]
            != "similarity index 100%"@ by {
            if k < front.len() {
                assert(all[k] == front[k]);
            } else {
                assert(all[k] == lines[k - front.len()]);
            }
        }
        lemma_unlines_concat(front, lines);
        assert(unlines(all).take(s.len() as int) =~= unlines(front) + unlines(lines).take(
            body.len() as int,
        ));
        lemma_no_rename(all, s);
    }
    assert(!starts_with_binary_notice(s)) by {
        lemma_first_of_lines(front);
        assert(s =~= front[0] + seq!['\n'] + (unlines(front.skip(1)) + body));
        lemma_no_notice(front[0], unlines(front.skip(1)) + body);
    }
}

/// The preamble and the header lines are lines, and none of them tells of a renamed file or is a
/// notice about binary files.
proof fn lemma_front_lines(pre: Seq<Seq<char>>, old: Seq<char>, new: Seq<char>)
    requires
        is_preamble(pre),
        !old.contains('\n'),
        !new.contains('\n'),
    ensures
        ({
            let front = pre + header_lines(old, new);
            &&& are_lines(front)
            &&& forall|k: int|
                0 <= k < front.len() ==> #[trigger] front[k] != "similarity index 100%"@
            &&& !stands(front[0], "Binary files "@, 0)
        }),
{
    reveal_strlit("similarity index 100%");
    reveal_strlit("Binary files ");
    let front = pre + header_lines(old, new);
    let word = "Binary files "@;
    let one = seq!['-', '-', '-', ' '] + old;
    let two = seq!['+', '+', '+', ' '] + new;
    assert(!one.contains('\n')) by {
        if one.contains('\n') {
            let j = choose|j: int| 0 <= j < one.len() && one[j] == '\n';
            assert(old[j - 4] == '\n');
        }
    }
    assert(!two.contains('\n')) by {
        if two.contains('\n') {
            let j = choose|j: int| 0 <= j < two.len() && two[j] == '\n';
            assert(new[j - 4] == '\n');
        }
    }
    assert("similarity index 100%"@[0] == 's');
    assert(one[0] == '-' && two[0] == '+');
    assert forall|k: int| 0 <= k < front.len() implies !(#[trigger] front[k]).contains('\n')
        && front[k] != "similarity index 100%"@ by {
        if k < pre.len() {
            assert(front[k] == pre[k]);
        } else if k == pre.len() {
            assert(front[k] == one);
        } else {
            assert(front[k] == two);
        }
    }
    if pre.len() > 0 {
        assert(front[0] == pre[0]);
    } else {
        assert(front[0] == one);
        assert(word[0] == 'B');
        if stands(one, word, 0) {
            assert(one[0int + 0] == word[0]);
        }
    }
}

/// No printed line tells of a renamed file.
proof fn lemma_body_lines(
    hunks: Seq<HunkView>,
    headers: Seq<Seq<char>>,
    note: bool,
    empty: nat,
    lines: Seq<Seq<char>>,
)
    requires
        can_be_printed(hunks, headers),
        may_have_cr(
            lines,
            hunk_texts(hunks, headers, hunks.len() as int) + closing_lines(note, empty),
        ),
    ensures
        forall|k: int| 0 <= k < lines.len() ==> #[trigger] lines[k] != "similarity index 100%"@,
{
    reveal_strlit("similarity index 100%");
    reveal_strlit("\\ No newline at end of file");
    let own = hunk_texts(hunks, headers, hunks.len() as int);
    let close = closing_lines(note, empty);
    let plain = own + close;
    let w = "similarity index 100%"@;
    lemma_printed_single(hunks, headers, hunks.len() as int);
    assert(w[0] == 's' && w.len() > 1);
    assert forall|k: int| 0 <= k < lines.len() implies #[trigger] lines[k] != w by {
        if k < own.len() {
            assert(plain[k] == own[k]);
            assert(lines[k][0] == own[k][0]);
        } else {
            let line = close[k - own.len()];
            assert(plain[k] == line);
            if line.len() > 0 {
                assert(line[0] == '\\');
                assert(lines[k][0] == line[0]);
            }
        }
    }
}

/// A text of lines without its last newline has as many parts as lines.
proof fn lemma_unended(lines: Seq<Seq<char>>)
    requires
        are_lines(lines),
        lines.len() > 0,
    ensures
        split(unlines(lines).drop_last(), '\n') == lines,
{
    let init = lines.drop_last();
    let last = lines.last();
    assert(are_lines(init)) by {
        assert forall|i: int| 0 <= i < init.len() implies !(#[trigger] init[i]).contains('\n') by {
            assert(init[i] == lines[i]);
        }
    }
    assert(!lines[lines.len() - 1].contains('\n'));
    lemma_split_unlines(init);
    assert(unlines(lines).drop_last() =~= unlines(init) + last);
    lemma_split_extend(unlines(init), last, '\n');
    assert(init.push(Seq::<char>::empty()).drop_last() =~= init);
    assert(Seq::<char>::empty() + last =~= last);
    assert(split(unlines(lines).drop_last(), '\n') =~= lines);
}

/// The note may come without a newline.
proof fn lemma_unended_note(hunks: Seq<HunkView>, headers: Seq<Seq<char>>, lines: Seq<Seq<char>>)
    requires
        can_be_printed(hunks, headers),
        may_have_cr(
            lines,
            hunk_texts(hunks, headers, hunks.len() as int) + closing_lines(true, 0),
        ),
        lines.last() == "\\ No newline at end of file"@,
    ensures
        hunks_shaped(unlines(lines).drop_last()),
{
    let own = hunk_texts(hunks, headers, hunks.len() as int);
    let plain = own + closing_lines(true, 0);
    let n = own.len() as int;
    lemma_printed_hunks(hunks, headers, true, 0, lines);
    assert(plain.take(n) =~= own);
    assert(lines.len() == n + 1);
    lemma_progress_hunks(hunks, headers, lines, plain, hunks.len() as int);
    lemma_unended(lines);
}

/// Digits that write a number of 64 bits.
pub open spec fn is_number_text(text: Seq<char>) -> bool {
    &&& text.len() > 0
    &&& forall|i: int| 0 <= i < text.len() ==> '0' <= #[trigger] text[i] <= '9'
    &&& number(text) <= u64::MAX
}

/// A number, or two with a comma between them.
pub open spec fn is_range_text(text: Seq<char>) -> bool {
    ||| is_number_text(text)
    ||| exists|a: Seq<char>, b: Seq<char>| #[trigger]
        (a.push(',') + b) == text && is_number_text(a) && is_number_text(b)
}

/// The line is written as the first line of a hunk.
pub open spec fn looks_like_header(line: Seq<char>) -> bool {
    exists|old: Seq<char>, new: Seq<char>, hint: Seq<char>|
        is_range_text(old) && is_range_text(new) && line == #[trigger] header_text(old, new, hint)
}

/// The line is written as a further line of a hunk.
pub open spec fn looks_like_line(line: Seq<char>) -> bool {
    &&& line.len() > 0
    &&& {
        ||| line[0] == '+' && !stands(line, "+++ "@, 0)
        ||| line[0] == '-' && !stands(line, "--- "@, 0)
        ||| line[0] == ' '
    }
}

/// The first `k` lines are those of hunks: the first line of the first hunk comes first, every
/// line is a first or a further line of a hunk, and no first line comes right behind another.
pub open spec fn are_hunk_lines(parts: Seq<Seq<char>>, k: int) -> bool {
    &&& 0 < k <= parts.len()
    &&& looks_like_header(without_cr(parts[0]))
    &&& forall|i: int|
        0 <= i < k ==> {
            let line = without_cr(#[trigger] parts[i]);
            (looks_like_header(line) || looks_like_line(line)) && !line.contains('\r')
        }
    &&& forall|i: int|
        0 < i < k && !looks_like_line(without_cr(#[trigger] parts[i])) ==> looks_like_line(
            without_cr(parts[i - 1]),
        )
}

/// The lines from `m` on close the hunks: the note on the missing newline may come first, and
/// empty lines may follow.
pub open spec fn are_closing_lines(parts: Seq<Seq<char>>, m: int, k: int) -> bool {
    forall|i: int|
        m <= i < k ==> {
            let line = without_cr(#[trigger] parts[i]);
            line.len() == 0 || (i == m && line == "\\ No newline at end of file"@)
        }
}

/// Numbers are written in digits.
proof fn lemma_digits_are_digits(s: Seq<char>, i: int)
    requires
        0 <= i <= s.len(),
    ensures
        i <= digits_end(s, i) <= s.len(),
        forall|j: int| i <= j < digits_end(s, i) ==> '0' <= #[trigger] s[j] <= '9',
    decreases s.len() - i,
{
    if i < s.len() && is_digit(s[i]) {
        lemma_digits_are_digits(s, i + 1);
    }
}

/// What is read as a number is one.
proof fn lemma_number_is_written(s: Seq<char>, i: int)
    requires
        0 <= i <= s.len(),
    ensures
        number_end(s, i) matches Some(j) ==> i < j <= s.len() && is_number_text(s.subrange(i, j)),
{
    lemma_digits_are_digits(s, i);
    let text = s.subrange(i, digits_end(s, i));
    assert forall|k: int| 0 <= k < text.len() implies '0' <= #[trigger] text[k] <= '9' by {
        assert(text[k] == s[i + k]);
    }
}

/// What is read as a range is one.
proof fn lemma_range_is_written(s: Seq<char>, i: int)
    requires
        0 <= i <= s.len(),
    ensures
        range_end(s, i) matches Some(j) ==> i < j <= s.len() && is_range_text(s.subrange(i, j)),
{
    reveal_strlit(",");
    lemma_number_is_written(s, i);
    if let Some(j) = number_end(s, i) {
        if matches_at(s, ","@, j) && number_end(s, j + 1) is Some {
            lemma_number_is_written(s, j + 1);
            let k = number_end(s, j + 1)->0;
            let a = s.subrange(i, j);
            let b = s.subrange(j + 1, k);
            assert(s.subrange(j, j + 1)[0] == s[j]);
            assert(a.push(',') + b =~= s.subrange(i, k));
        }
    }
}

/// What is taken for the first line of a hunk is written as one.
proof fn lemma_header_is_written(line: Seq<char>)
    requires
        is_hunk_header(line),
    ensures
        looks_like_header(line),
{
    reveal_strlit("@@ -");
    reveal_strlit(" +");
    reveal_strlit(" @@");
    lemma_range_is_written(line, 4);
    let i = range_end(line, 4)->0;
    lemma_range_is_written(line, i + 2);
    let j = range_end(line, i + 2)->0;
    let old = line.subrange(4, i);
    let new = line.subrange(i + 2, j);
    let hint = line.skip(j + 3);
    assert("@@ -"@ =~= seq!['@', '@', ' ', '-']);
    assert(" +"@ =~= seq![' ', '+']);
    assert(" @@"@ =~= seq![' ', '@', '@']);
    assert(line =~= line.subrange(0, 4) + old + line.subrange(i, i + 2) + new + line.subrange(
        j,
        j + 3,
    ) + hint);
    assert(line == header_text(old, new, hint));
}

/// What is taken for a further line of a hunk is written as one.
proof fn lemma_line_is_written(line: Seq<char>)
    ensures
        is_hunk_line(line) <==> looks_like_line(line),
{
    reveal_strlit("+");
    reveal_strlit("-");
    reveal_strlit(" ");
    law_match_is_character_by_character(line, "+"@, 0);
    law_match_is_character_by_character(line, "-"@, 0);
    law_match_is_character_by_character(line, " "@, 0);
    law_match_is_character_by_character(line, "+++ "@, 0);
    law_match_is_character_by_character(line, "--- "@, 0);
    assert("+"@[0] == '+' && "-"@[0] == '-' && " "@[0] == ' ');
    if line.len() > 0 {
        assert(stands(line, "+"@, 0) <==> line[0int + 0] == '+');
        assert(stands(line, "-"@, 0) <==> line[0int + 0] == '-');
        assert(stands(line, " "@, 0) <==> line[0int + 0] == ' ');
    }
}

/// The first line of a hunk is no further line of one.
proof fn lemma_header_is_no_line(line: Seq<char>)
    requires
        looks_like_header(line),
    ensures
        !looks_like_line(line),
{
    let (old, new, hint) = choose|old: Seq<char>, new: Seq<char>, hint: Seq<char>|
        is_range_text(old) && is_range_text(new) && line == #[trigger] header_text(old, new, hint);
    assert(line[0] == '@');
}

/// The progress tells what the lines before are.
proof fn lemma_progress_tells(parts: Seq<Seq<char>>, k: int)
    requires
        0 <= k <= parts.len(),
    ensures
        match progress(parts, k) {
            Progress::Start => k == 0,
            Progress::Opened => are_hunk_lines(parts, k) && !looks_like_line(
                without_cr(parts[k - 1]),
            ),
            Progress::Inside => are_hunk_lines(parts, k) && looks_like_line(
                without_cr(parts[k - 1]),
            ),
            Progress::Closed => exists|m: int|
                m < k && #[trigger] are_hunk_lines(parts, m) && looks_like_line(
                    without_cr(parts[m - 1]),
                ) && are_closing_lines(parts, m, k),
            Progress::Broken => true,
        },
    decreases k,
{
    if k > 0 {
        lemma_progress_tells(parts, k - 1);
        let line = without_cr(parts[k - 1]);
        lemma_line_is_written(line);
        if is_hunk_header(line) {
            lemma_header_is_written(line);
            lemma_header_is_no_line(line);
        }
        if progress(parts, k) == Progress::Closed {
            if progress(parts, k - 1) == Progress::Inside {
                let m = k - 1;
                assert(are_hunk_lines(parts, m) && are_closing_lines(parts, m, k));
            } else {
                let m = choose|m: int|
                    m < k - 1 && #[trigger] are_hunk_lines(parts, m) && looks_like_line(
                        without_cr(parts[m - 1]),
                    ) && are_closing_lines(parts, m, k - 1);
                assert(are_hunk_lines(parts, m) && are_closing_lines(parts, m, k));
            }
        }
    }
}

/// What has the shape of hunks is made of them: the ended lines are one or more hunks, each a
/// first line with its ranges and one or more further lines, and behind them at most the note on
/// the missing newline and empty lines. What is not ended by a newline is nothing, or the note.
pub proof fn law_shaped_hunks_are_hunks(body: Seq<char>)
    requires
        hunks_shaped(body),
    ensures
        ({
            let parts = split(body, '\n');
            let n = parts.len() - 1;
            exists|m: int|
                m <= n && #[trigger] are_hunk_lines(parts, m) && looks_like_line(
                    without_cr(parts[m - 1]),
                ) && are_closing_lines(parts, m, n) && (parts.last().len() == 0 || (m == n
                    && parts.last() == "\\ No newline at end of file"@))
        }),
{
    let parts = split(body, '\n');
    let n = parts.len() - 1;
    lemma_split_parts(body, '\n');
    lemma_progress_tells(parts, n);
    if progress(parts, n) == Progress::Inside {
        assert(are_hunk_lines(parts, n) && are_closing_lines(parts, n, n));
    } else {
        let m = choose|m: int|
            m < n && #[trigger] are_hunk_lines(parts, m) && looks_like_line(
                without_cr(parts[m - 1]),
            ) && are_closing_lines(parts, m, n);
        assert(are_hunk_lines(parts, m) && are_closing_lines(parts, m, n));
        reveal_strlit("\\ No newline at end of file");
    }
}

/// The text up to the hunks: anything, and a line that starts with three minus signs and a space,
/// which has not come before, and one more line.
pub open spec fn are_headers(
    front: Seq<char>,
    anything: Seq<char>,
    old: Seq<char>,
    new: Seq<char>,
) -> bool {
    &&& front == anything + seq!['-', '-', '-', ' '] + old + seq!['\n'] + new + seq!['\n']
    &&& !old.contains('\n')
    &&& !new.contains('\n')
    &&& forall|i: int| i < anything.len() ==> !#[trigger] stands(front, "--- "@, i)
}

/// A well-shaped text that is not a notice about binary files and tells of no renamed file is
/// made of two header lines, whatever comes before them, and hunks; and it has no more lines than
/// can be counted in 32 bits.
#[verifier::rlimit(40)]
pub proof fn law_well_shaped_texts_are_patches(s: Seq<char>)
    requires
        well_shaped(s),
        !stands(s, "Binary files "@, 0),
        forall|i: int| !#[trigger] stands(s, "\nsimilarity index 100%\n"@, i),
    ensures
        split(s, '\n').len() <= u32::MAX,
        exists|front: Seq<char>, anything: Seq<char>, old: Seq<char>, new: Seq<char>|
            #![trigger are_headers(front, anything, old, new)]
            are_headers(front, anything, old, new) && front.len() <= s.len() && s.take(
                front.len() as int,
            ) == front && hunks_shaped(s.skip(front.len() as int)),
{
    law_match_is_character_by_character(s, "Binary files "@, 0);
    let mark = "\nsimilarity index 100%\n"@;
    lemma_first_match(s, mark, 0);
    if first_match(s, mark, 0) is Some {
        law_match_is_character_by_character(s, mark, first_match(s, mark, 0)->0);
        assert(!stands(s, mark, first_match(s, mark, 0)->0));
    }
    reveal_strlit("--- ");
    reveal_strlit("");
    reveal_strlit("\n");
    lemma_first_match(s, "--- "@, 0);
    let a = first_match(s, "--- "@, 0)->0;
    lemma_first_match(s, "\n"@, a + 4);
    let b = first_match(s, "\n"@, a + 4)->0;
    lemma_first_match(s, "\n"@, b + 1);
    let c = first_match(s, "\n"@, b + 1)->0;
    let front = s.take(c + 1);
    let anything = s.take(a);
    let old = s.subrange(a + 4, b);
    let new = s.subrange(b + 1, c);
    assert(s.subrange(b, b + 1)[0] == s[b]);
    assert(s.subrange(c, c + 1)[0] == s[c]);
    assert("--- "@ =~= seq!['-', '-', '-', ' ']);
    assert(front =~= anything + s.subrange(a, a + 4) + old + seq!['\n'] + new + seq!['\n']);
    lemma_no_newline_between(s, a + 4, b);
    lemma_no_newline_between(s, b + 1, c);
    assert forall|i: int| i < anything.len() implies !#[trigger] stands(front, "--- "@, i) by {
        if stands(front, "--- "@, i) {
            assert forall|j: int| 0 <= j < "--- "@.len() implies s[i + j]
                == #[trigger] "--- "@[j] by {
                assert(front[i + j] == "--- "@[j]);
            }
            law_match_is_character_by_character(s, "--- "@, i);
        }
    }
    assert(are_headers(front, anything, old, new));
}

/// Up to the first newline there is none.
proof fn lemma_no_newline_between(s: Seq<char>, from: int, to: int)
    requires
        0 <= from <= to <= s.len(),
        forall|j: int| from <= j < to ==> !#[trigger] matches_at(s, "\n"@, j),
    ensures
        !s.subrange(from, to).contains('\n'),
{
    reveal_strlit("\n");
    let part = s.subrange(from, to);
    if part.contains('\n') {
        let j = choose|j: int| 0 <= j < part.len() && part[j] == '\n';
        assert(s.subrange(from + j, from + j + 1) =~= "\n"@);
        assert(matches_at(s, "\n"@, from + j));
    }
}

/// White space behind a text that does not end in white space is left out.
proof fn lemma_trimmed(text: Seq<char>, behind: Seq<char>)
    requires
        text.len() > 0,
        !is_space(text.last()),
        forall|i: int| 0 <= i < behind.len() ==> is_space(#[trigger] behind[i]),
    ensures
        trimmed_end(text + behind) == text,
    decreases behind.len(),
{
    if behind.len() == 0 {
        assert(text + behind =~= text);
    } else {
        let init = behind.drop_last();
        assert forall|i: int| 0 <= i < init.len() implies is_space(#[trigger] init[i]) by {
            assert(init[i] == behind[i]);
        }
        lemma_trimmed(text, init);
        assert(is_space(behind[behind.len() - 1]));
        assert((text + behind).last() == behind.last());
        assert((text + behind).drop_last() =~= text + init);
    }
}

/// Names that are told apart.
proof fn lemma_names_differ(a: Seq<char>, b: Seq<char>, behind: Seq<char>)
    requires
        forall|i: int| 0 <= i < behind.len() ==> is_space(#[trigger] behind[i]),
    ensures
        names_differ(a + " and "@ + b + " differ"@ + behind),
{
    let both = a + " and "@ + b;
    let names = both + " differ"@;
    let end = both.len() as int;
    assert(names.len() > 0 && !is_space(names.last())) by {
        reveal_strlit(" differ");
        assert(names.last() == 'r');
    }
    lemma_trimmed(names, behind);
    assert(names.subrange(end, names.len() as int) =~= " differ"@);
    assert(names.take(end) =~= both);
    assert(both.subrange(a.len() as int, a.len() as int + " and "@.len()) =~= " and "@);
    lemma_first_match(both, " and "@, 0);
    assert(matches_at(both, " and "@, a.len() as int));
}

/// A line that starts with the words of a notice about binary files, and tells two names, is
/// one, up to its end.
proof fn lemma_notice(names: Seq<char>)
    requires
        names_differ(names),
        !names.contains('\n'),
    ensures
        well_shaped("Binary files "@ + names + seq!['\n']),
{
    let word = "Binary files "@;
    let line = word + names;
    let s = line + seq!['\n'];
    let n = line.len() as int;
    assert(!word.contains('\n')) by {
        reveal_strlit("Binary files ");
    }
    lemma_line_of_parts(word, names);
    assert(s.subrange(0, n) =~= line);
    assert(line.take(word.len() as int) =~= word);
    lemma_line_end(s, word, 0, line);
    assert(s.subrange(word.len() as int, n) =~= names);
    let one = seq![line];
    lemma_first_of_lines(one);
    assert(one.skip(1) =~= Seq::<Seq<char>>::empty());
    assert(unlines(one.skip(1)) =~= Seq::<char>::empty());
    assert(unlines(one) =~= s);
    lemma_split_unlines(one);
}

/// The notice that two binary files differ, whatever their names, is well shaped, also with
/// spaces, tabs or a carriage return at its end.
pub proof fn law_binary_notices_are_well_shaped(a: Seq<char>, b: Seq<char>, behind: Seq<char>)
    requires
        !a.contains('\n'),
        !b.contains('\n'),
        forall|i: int|
            0 <= i < behind.len() ==> #[trigger] behind[i] == ' ' || behind[i] == '\t' || behind[i]
                == '\r',
    ensures
        well_shaped("Binary files "@ + a + " and "@ + b + " differ"@ + behind + seq!['\n']),
{
    let names = a + " and "@ + b + " differ"@ + behind;
    assert forall|i: int| 0 <= i < behind.len() implies is_space(#[trigger] behind[i]) by {}
    lemma_names_differ(a, b, behind);
    assert(!names.contains('\n')) by {
        reveal_strlit(" and ");
        reveal_strlit(" differ");
        lemma_line_of_parts(a, " and "@);
        lemma_line_of_parts(a + " and "@, b);
        lemma_line_of_parts(a + " and "@ + b, " differ"@);
        assert(!behind.contains('\n'));
        lemma_line_of_parts(a + " and "@ + b + " differ"@, behind);
    }
    lemma_notice(names);
    assert("Binary files "@ + a + " and "@ + b + " differ"@ + behind + seq!['\n']
        =~= "Binary files "@ + names + seq!['\n']);
}

/// A text that tells of a renamed file that is otherwise unchanged, whatever its names, is well
/// shaped.
#[verifier::rlimit(40)]
pub proof fn law_renames_are_well_shaped(first: Seq<char>, a: Seq<char>, b: Seq<char>)
    requires
        !first.contains('\n'),
        !stands(first, "Binary files "@, 0),
        !a.contains('\n'),
        !b.contains('\n'),
    ensures
        well_shaped(
            first + "\nsimilarity index 100%\n"@ + "rename from "@ + a + seq!['\n'] + "rename to "@
                + b + seq!['\n'],
        ),
{
    reveal_strlit("\nsimilarity index 100%\n");
    reveal_strlit("similarity index 100%");
    let mark = "\nsimilarity index 100%\n"@;
    let one = "rename from "@ + a;
    let two = "rename to "@ + b;
    let s = first + mark + "rename from "@ + a + seq!['\n'] + "rename to "@ + b + seq!['\n'];
    let w = "similarity index 100%"@;
    assert(mark =~= seq!['\n'] + w + seq!['\n']);
    assert(s =~= first + mark + one + seq!['\n'] + two + seq!['\n']);
    let i = first.len() as int;
    let j = i + mark.len();
    let k = j + one.len() + 1;
    assert(!one.contains('\n') && !two.contains('\n')) by {
        reveal_strlit("rename from ");
        reveal_strlit("rename to ");
        lemma_line_of_parts("rename from "@, a);
        lemma_line_of_parts("rename to "@, b);
    }
    assert(first_match(s, mark, 0) == Some(i)) by {
        assert(s.subrange(i, i + mark.len()) =~= mark);
        lemma_first_match(s, mark, 0);
        assert(matches_at(s, mark, i));
        let at = first_match(s, mark, 0)->0;
        if at < i {
            assert(s.subrange(at, at + mark.len())[0] == s[at]);
            assert(first[at] == '\n');
        }
    }
    assert(line_end_after(s, "rename from "@, j) == Some(k)) by {
        assert(s.subrange(j, j + one.len()) =~= one);
        assert(one.take("rename from "@.len() as int) =~= "rename from "@);
        lemma_line_end(s, "rename from "@, j, one);
    }
    assert(line_end_after(s, "rename to "@, k) == Some(s.len() as int)) by {
        assert(s.subrange(k, k + two.len()) =~= two);
        assert(two.take("rename to "@.len() as int) =~= "rename to "@);
        lemma_line_end(s, "rename to "@, k, two);
    }
    let rest = w + seq!['\n'] + one + seq!['\n'] + two + seq!['\n'];
    assert(s =~= first + seq!['\n'] + rest);
    lemma_no_notice(first, rest);
    let lines = seq![first, w] + seq![one, two];
    lemma_two_lines(first, w);
    lemma_two_lines(one, two);
    lemma_unlines_concat(seq![first, w], seq![one, two]);
    assert(unlines(lines) =~= s);
    lemma_split_unlines(lines);
}

/// A notice about binary files, and what follows it.
pub open spec fn notice_text(
    a: Seq<char>,
    b: Seq<char>,
    behind: Seq<char>,
    rest: Seq<char>,
) -> Seq<char> {
    "Binary files "@ + (a + " and "@ + b + " differ"@ + behind) + seq!['\n'] + rest
}

/// The white space at the end of a text can be told from the rest.
proof fn lemma_trimmed_part(s: Seq<char>)
    ensures
        trimmed_end(s).len() <= s.len(),
        s.take(trimmed_end(s).len() as int) == trimmed_end(s),
        forall|i: int| trimmed_end(s).len() <= i < s.len() ==> is_space(#[trigger] s[i]),
    decreases s.len(),
{
    if s.len() > 0 && is_space(s.last()) {
        let init = s.drop_last();
        lemma_trimmed_part(init);
        let n = trimmed_end(s).len() as int;
        assert(s.take(n) =~= init.take(n));
        assert forall|i: int| n <= i < s.len() implies is_space(#[trigger] s[i]) by {
            if i < init.len() {
                assert(init[i] == s[i]);
            }
        }
    } else {
        assert(s.take(s.len() as int) =~= s);
    }
}

/// A text that starts with a notice about binary files tells two names in it, and nothing follows
/// the notice where the text is well shaped.
#[verifier::rlimit(40)]
pub proof fn law_notices_tell_two_names(s: Seq<char>)
    requires
        starts_with_binary_notice(s),
    ensures
        exists|a: Seq<char>, b: Seq<char>, behind: Seq<char>, rest: Seq<char>|
            s == #[trigger] notice_text(a, b, behind, rest) && (well_shaped(s) ==> rest.len() == 0)
                && forall|i: int| 0 <= i < behind.len() ==> is_space(#[trigger] behind[i]),
{
    reveal_strlit("\n");
    let word = "Binary files "@;
    let w = word.len() as int;
    lemma_first_match(s, "\n"@, w);
    let end = first_match(s, "\n"@, w)->0;
    assert(s.subrange(end, end + 1)[0] == s[end]);
    let names = s.subrange(w, end);
    let t = trimmed_end(names);
    lemma_trimmed_part(names);
    let at = t.len() - " differ"@.len();
    let both = t.take(at);
    lemma_first_match(both, " and "@, 0);
    let i = first_match(both, " and "@, 0)->0;
    let n = " and "@.len() as int;
    let a = both.take(i);
    let b = both.skip(i + n);
    let behind = names.skip(t.len() as int);
    let rest = s.skip(end + 1);
    assert(both =~= a + both.subrange(i, i + n) + b);
    assert(t =~= both + t.subrange(at, t.len() as int));
    assert(names =~= t + behind);
    assert(names == a + " and "@ + b + " differ"@ + behind);
    assert(s =~= s.subrange(0, w) + names + seq!['\n'] + rest);
    assert(s == notice_text(a, b, behind, rest));
    assert forall|j: int| 0 <= j < behind.len() implies is_space(#[trigger] behind[j]) by {
        assert(behind[j] == names[t.len() + j]);
    }
}

/// What tells of a renamed file that is otherwise unchanged, and what follows it.
pub open spec fn rename_text(
    first: Seq<char>,
    a: Seq<char>,
    b: Seq<char>,
    rest: Seq<char>,
) -> Seq<char> {
    first + "\nsimilarity index 100%\n"@ + "rename from "@ + a + seq!['\n'] + "rename to "@ + b
        + seq!['\n'] + rest
}

/// What stands from a word up to the end of its line.
proof fn lemma_line_after(s: Seq<char>, word: Seq<char>, i: int)
    requires
        0 <= i <= s.len(),
        line_end_after(s, word, i) is Some,
    ensures
        ({
            let j = line_end_after(s, word, i)->0;
            &&& i + word.len() < j <= s.len()
            &&& s.subrange(i, j) == word + s.subrange(i + word.len(), j - 1) + seq!['\n']
            &&& !s.subrange(i + word.len(), j - 1).contains('\n')
        }),
{
    reveal_strlit("\n");
    lemma_first_match(s, "\n"@, i + word.len());
    let end = first_match(s, "\n"@, i + word.len())->0;
    let from = i + word.len() as int;
    assert(s.subrange(end, end + 1)[0] == s[end]);
    lemma_no_newline_between(s, from, end);
    assert(s.subrange(i, end + 1) =~= s.subrange(i, from) + s.subrange(from, end) + seq!['\n']);
}

/// A text that tells of a renamed file tells its two names, and nothing follows them where the
/// text is well shaped.
#[verifier::rlimit(40)]
pub proof fn law_renames_tell_two_names(s: Seq<char>)
    requires
        rename_end(s) is Some,
    ensures
        exists|first: Seq<char>, a: Seq<char>, b: Seq<char>, rest: Seq<char>|
            s == #[trigger] rename_text(first, a, b, rest) && !a.contains('\n') && !b.contains(
                '\n',
            ) && (well_shaped(s) && !starts_with_binary_notice(s) ==> rest.len() == 0),
{
    let mark = "\nsimilarity index 100%\n"@;
    let from = "rename from "@;
    let to = "rename to "@;
    lemma_first_match(s, mark, 0);
    let i = first_match(s, mark, 0)->0;
    let j = i + mark.len() as int;
    lemma_line_after(s, from, j);
    let k = line_end_after(s, from, j)->0;
    lemma_line_after(s, to, k);
    let end = line_end_after(s, to, k)->0;
    let first = s.take(i);
    let a = s.subrange(j + from.len(), k - 1);
    let b = s.subrange(k + to.len(), end - 1);
    let rest = s.skip(end);
    assert(s =~= first + s.subrange(i, j) + s.subrange(j, k) + s.subrange(k, end) + rest);
    assert(rename_text(first, a, b, rest) =~= first + mark + (from + a + seq!['\n']) + (to + b
        + seq!['\n']) + rest);
    assert(s == rename_text(first, a, b, rest));
}

} // verus!
