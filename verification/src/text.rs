//! Text as a sequence of characters: lines, searching, replacing, joining.
use vstd::prelude::*;

verus! {

/// Appends one character to the end of the string (`String::push`).
pub assume_specification[ String::push ](s: &mut String, c: char)
    ensures
        final(s)@ == old(s)@.push(c),
;

/// Removes the last character of the string and returns it, or returns `None` and leaves
/// the string as it is when it is empty (`String::pop`).
pub assume_specification[ String::pop ](s: &mut String) -> (r: Option<char>)
    ensures
        old(s)@.len() == 0 ==> r is None && final(s)@ == old(s)@,
        old(s)@.len() > 0 ==> r == Some(old(s)@.last()) && final(s)@ == old(s)@.drop_last(),
;

/// The contents of a list of strings.
pub open spec fn texts(v: Seq<String>) -> Seq<Seq<char>> {
    Seq::new(v.len(), |i: int| v[i]@)
}

/// The parts with `sep` between each two neighbours.
pub open spec fn joined(parts: Seq<Seq<char>>, sep: Seq<char>) -> Seq<char>
    decreases parts.len(),
{
    if parts.len() == 0 {
        Seq::empty()
    } else if parts.len() == 1 {
        parts[0]
    } else {
        joined(parts.drop_last(), sep) + sep + parts.last()
    }
}

/// The parts between the occurrences of `c`; one more than there are occurrences.
pub open spec fn split(s: Seq<char>, c: char) -> Seq<Seq<char>>
    decreases s.len(),
{
    if s.len() == 0 {
        seq![Seq::empty()]
    } else {
        let before = split(s.drop_last(), c);
        if s.last() == c {
            before.push(Seq::empty())
        } else {
            before.drop_last().push(before.last().push(s.last()))
        }
    }
}

/// A terminated line without the carriage return that may belong to its line end.
pub open spec fn without_cr(line: Seq<char>) -> Seq<char> {
    if line.len() > 0 && line.last() == '\r' {
        line.drop_last()
    } else {
        line
    }
}

/// The lines of a text. A line ends in a newline, or in a carriage return and a newline;
/// the line end of the last line may be missing.
pub open spec fn text_lines(s: Seq<char>) -> Seq<Seq<char>> {
    let parts = split(s, '\n');
    let ended = parts.drop_last().map_values(|l: Seq<char>| without_cr(l));
    if parts.last().len() == 0 {
        ended
    } else {
        ended.push(parts.last())
    }
}

/// The text made of the given lines, each followed by a newline.
pub open spec fn unlines(lines: Seq<Seq<char>>) -> Seq<char>
    decreases lines.len(),
{
    if lines.len() == 0 {
        Seq::empty()
    } else {
        unlines(lines.drop_last()) + lines.last() + seq!['\n']
    }
}

/// Whether `pat` stands in `s` at position `i`.
pub open spec fn matches_at(s: Seq<char>, pat: Seq<char>, i: int) -> bool {
    &&& 0 <= i
    &&& i + pat.len() <= s.len()
    &&& s.subrange(i, i + pat.len()) == pat
}

/// The first position from `from` on at which `pat` stands in `s`.
pub open spec fn first_match(s: Seq<char>, pat: Seq<char>, from: int) -> Option<int>
    decreases s.len() + 1 - from,
{
    if from + pat.len() > s.len() {
        None
    } else if matches_at(s, pat, from) {
        Some(from)
    } else {
        first_match(s, pat, from + 1)
    }
}

/// The rest of `s` from `from` on, each occurrence of `pat` in it (from left to right,
/// without overlap) replaced by `by`.
pub open spec fn replaced_from(s: Seq<char>, pat: Seq<char>, by: Seq<char>, from: int) -> Seq<char>
    decreases s.len() - from,
{
    match first_match(s, pat, from) {
        Some(i) => if pat.len() > 0 && from <= i <= s.len() - pat.len() {
            s.subrange(from, i) + by + replaced_from(s, pat, by, i + pat.len())
        } else {
            s.skip(from)
        },
        None => s.skip(from),
    }
}

/// `s` with each occurrence of `pat` replaced by `by`.
pub open spec fn replaced(s: Seq<char>, pat: Seq<char>, by: Seq<char>) -> Seq<char> {
    replaced_from(s, pat, by, 0)
}

/// What `first_match` finds is the first match.
pub proof fn lemma_first_match(s: Seq<char>, pat: Seq<char>, from: int)
    requires
        0 <= from,
    ensures
        match first_match(s, pat, from) {
            Some(i) => from <= i && matches_at(s, pat, i) && forall|j: int|
                from <= j < i ==> !matches_at(s, pat, j),
            None => forall|j: int| from <= j ==> !matches_at(s, pat, j),
        },
    decreases s.len() + 1 - from,
{
    if from + pat.len() > s.len() {
    } else if matches_at(s, pat, from) {
    } else {
        lemma_first_match(s, pat, from + 1);
        assert forall|j: int| from <= j && matches_at(s, pat, j) implies from + 1 <= j by {
            assert(j != from);
        }
    }
}

/// Splitting always gives at least one part, and no part holds the separator.
pub proof fn lemma_split_parts(s: Seq<char>, c: char)
    ensures
        split(s, c).len() > 0,
        forall|i: int| 0 <= i < split(s, c).len() ==> !(#[trigger] split(s, c)[i]).contains(c),
    decreases s.len(),
{
    if s.len() > 0 {
        lemma_split_parts(s.drop_last(), c);
        let before = split(s.drop_last(), c);
        if s.last() != c {
            let last = before.last();
            assert(!before[before.len() - 1].contains(c));
            assert forall|k: int| 0 <= k < last.push(s.last()).len() implies last.push(s.last())[k]
                != c by {
                if k < last.len() {
                    assert(last[k] != c);
                }
            }
        }
    }
}

/// Characters other than the separator extend the last part.
pub proof fn lemma_split_extend(s: Seq<char>, t: Seq<char>, c: char)
    requires
        !t.contains(c),
    ensures
        split(s + t, c) == split(s, c).drop_last().push(split(s, c).last() + t),
    decreases t.len(),
{
    lemma_split_parts(s, c);
    let parts = split(s, c);
    if t.len() == 0 {
        assert(s + t =~= s);
        assert(parts.last() + t =~= parts.last());
        assert(parts =~= parts.drop_last().push(parts.last()));
    } else {
        let t0 = t.drop_last();
        assert(!t0.contains(c)) by {
            if t0.contains(c) {
                let k = choose|k: int| 0 <= k < t0.len() && t0[k] == c;
                assert(t[k] == c);
            }
        }
        lemma_split_extend(s, t0, c);
        assert((s + t).drop_last() =~= s + t0);
        assert(t[t.len() - 1] != c);
        assert((s + t).last() == t.last());
        let mid = parts.drop_last().push(parts.last() + t0);
        assert(mid.drop_last() =~= parts.drop_last());
        assert((parts.last() + t0).push(t.last()) =~= parts.last() + t);
    }
}

/// Splitting the text made of lines that hold no newline gives the lines back, followed by
/// an empty part.
pub proof fn lemma_split_unlines(lines: Seq<Seq<char>>)
    requires
        forall|i: int| 0 <= i < lines.len() ==> !(#[trigger] lines[i]).contains('\n'),
    ensures
        split(unlines(lines), '\n') == lines.push(Seq::empty()),
    decreases lines.len(),
{
    if lines.len() == 0 {
        assert(split(unlines(lines), '\n') =~= lines.push(Seq::empty()));
    } else {
        let init = lines.drop_last();
        assert forall|i: int| 0 <= i < init.len() implies !(#[trigger] init[i]).contains('\n') by {
            assert(init[i] == lines[i]);
        }
        lemma_split_unlines(init);
        let before = unlines(init);
        let last = lines.last();
        assert(!lines[lines.len() - 1].contains('\n'));
        lemma_split_extend(before, last, '\n');
        assert(init.push(Seq::<char>::empty()).drop_last() =~= init);
        assert(Seq::<char>::empty() + last =~= last);
        assert(split(before + last, '\n') =~= lines);
        let all = before + last + seq!['\n'];
        assert(all.drop_last() =~= before + last);
        assert(all.last() == '\n');
    }
}

/// The lines of a text made of lines are those lines, each without a carriage return at its
/// end.
pub proof fn lemma_text_lines_unlines(lines: Seq<Seq<char>>)
    requires
        forall|i: int| 0 <= i < lines.len() ==> !(#[trigger] lines[i]).contains('\n'),
    ensures
        text_lines(unlines(lines)) == lines.map_values(|l: Seq<char>| without_cr(l)),
{
    lemma_split_unlines(lines);
    assert(lines.push(Seq::<char>::empty()).drop_last() =~= lines);
}

/// Joining lines and one empty part with newlines ends each line in a newline.
pub proof fn lemma_joined_unlines(lines: Seq<Seq<char>>)
    ensures
        joined(lines.push(Seq::empty()), seq!['\n']) == unlines(lines),
    decreases lines.len(),
{
    let sep = seq!['\n'];
    let all = lines.push(Seq::<char>::empty());
    if lines.len() > 0 {
        let init = lines.drop_last();
        lemma_joined_unlines(init);
        assert(all.drop_last() =~= lines);
        assert(joined(all, sep) =~= joined(lines, sep) + sep);
        if lines.len() == 1 {
            assert(unlines(init) =~= Seq::<char>::empty());
            assert(unlines(lines) =~= lines[0] + sep);
        } else {
            let shorter = init.push(Seq::<char>::empty());
            assert(shorter.drop_last() =~= init);
            assert(joined(shorter, sep) =~= joined(init, sep) + sep);
        }
    }
}

/// The text of two lists of lines, one after the other.
pub proof fn lemma_unlines_concat(a: Seq<Seq<char>>, b: Seq<Seq<char>>)
    ensures
        unlines(a + b) == unlines(a) + unlines(b),
    decreases b.len(),
{
    if b.len() == 0 {
        assert(a + b =~= a);
        assert(unlines(a) + unlines(b) =~= unlines(a));
    } else {
        lemma_unlines_concat(a, b.drop_last());
        assert((a + b).drop_last() =~= a + b.drop_last());
        assert((a + b).last() == b.last());
        assert(unlines(a + b) =~= unlines(a) + unlines(b));
    }
}

/// The characters of a string.
pub fn to_chars(s: &str) -> (r: Vec<char>)
    ensures
        r@ == s@,
{
    let mut out: Vec<char> = Vec::new();
    for c in it: s.chars()
        invariant
            out@ == it.seq().take(it.index() as int),
            it.seq() == s@,
    {
        out.push(c);
    }
    out
}

/// The string of the characters from `from` up to and without `to`.
pub fn from_chars(chars: &Vec<char>, from: usize, to: usize) -> (r: String)
    requires
        from <= to <= chars@.len(),
    ensures
        r@ == chars@.subrange(from as int, to as int),
{
    let mut out = String::new();
    let mut i: usize = from;
    while i < to
        invariant
            from <= i <= to <= chars@.len(),
            out@ == chars@.subrange(from as int, i as int),
        decreases to - i,
    {
        out.push(chars[i]);
        i = i + 1;
        assert(chars@.subrange(from as int, i as int) =~= chars@.subrange(
            from as int,
            i - 1,
        ).push(chars@[i - 1]));
    }
    out
}

/// Whether `pat` stands in `s` at position `i`.
pub fn stands_at(s: &Vec<char>, pat: &Vec<char>, i: usize) -> (r: bool)
    ensures
        r == matches_at(s@, pat@, i as int),
{
    if i > s.len() || pat.len() > s.len() - i {
        return false;
    }
    let n = s.len();
    let mut k: usize = 0;
    while k < pat.len()
        invariant
            k <= pat@.len(),
            i + pat@.len() <= n,
            n == s@.len(),
            forall|j: int| 0 <= j < k ==> s@[i + j] == pat@[j],
        decreases pat.len() - k,
    {
        if s[i + k] != pat[k] {
            assert(s@.subrange(i as int, i + pat@.len())[k as int] != pat@[k as int]);
            return false;
        }
        k = k + 1;
    }
    assert(s@.subrange(i as int, i + pat@.len()) =~= pat@);
    true
}

/// The first position from `from` on at which `pat` stands in `s`.
pub fn find(s: &Vec<char>, pat: &Vec<char>, from: usize) -> (r: Option<usize>)
    ensures
        match r {
            Some(i) => first_match(s@, pat@, from as int) == Some(i as int),
            None => first_match(s@, pat@, from as int) is None,
        },
{
    let mut i: usize = from;
    while i <= s.len() && pat.len() <= s.len() - i
        invariant
            from <= i,
            first_match(s@, pat@, from as int) == first_match(s@, pat@, i as int),
        decreases s.len() + 1 - i,
    {
        if stands_at(s, pat, i) {
            return Some(i);
        }
        assert(i < s@.len()) by {
            if i == s@.len() {
                assert(s@.subrange(i as int, i + pat@.len()) =~= pat@);
            }
        }
        i = i + 1;
    }
    None
}

/// `s` with each occurrence of `pat` replaced by `by`, from left to right.
pub fn replace(s: &str, pat: &str, by: &str) -> (r: String)
    requires
        pat@.len() > 0,
    ensures
        r@ == replaced(s@, pat@, by@),
{
    let chars = to_chars(s);
    let wanted = to_chars(pat);
    let total = chars.len();
    let mut out = String::new();
    let mut pos: usize = 0;
    assert(out@ + replaced_from(s@, pat@, by@, 0) =~= replaced(s@, pat@, by@));
    let mut next = find(&chars, &wanted, pos);
    while next.is_some()
        invariant
            chars@ == s@,
            wanted@ == pat@,
            pat@.len() > 0,
            pos <= total,
            total == s@.len(),
            match next {
                Some(i) => first_match(s@, pat@, pos as int) == Some(i as int),
                None => first_match(s@, pat@, pos as int) is None,
            },
            out@ + replaced_from(s@, pat@, by@, pos as int) == replaced(s@, pat@, by@),
        decreases s@.len() - pos,
    {
        let i: usize = next.unwrap();
        proof {
            lemma_first_match(s@, pat@, pos as int);
        }
        let ghost before = out@;
        out.append(from_chars(&chars, pos, i).as_str());
        out.append(by);
        assert(out@ + replaced_from(s@, pat@, by@, i + pat@.len()) =~= before + (s@.subrange(
            pos as int,
            i as int,
        ) + by@ + replaced_from(s@, pat@, by@, i + pat@.len())));
        pos = i + wanted.len();
        next = find(&chars, &wanted, pos);
    }
    out.append(from_chars(&chars, pos, total).as_str());
    assert(s@.skip(pos as int) =~= s@.subrange(pos as int, s@.len() as int));
    out
}

/// The parts of `s` between the occurrences of `c`.
pub fn split_on(s: &str, c: char) -> (r: Vec<String>)
    ensures
        texts(r@) == split(s@, c),
{
    let chars = to_chars(s);
    let mut out: Vec<String> = Vec::new();
    let mut part = String::new();
    let mut i: usize = 0;
    assert(texts(out@).push(part@) =~= split(s@.take(0), c));
    while i < chars.len()
        invariant
            i <= chars@.len(),
            chars@ == s@,
            texts(out@).push(part@) == split(s@.take(i as int), c),
        decreases chars.len() - i,
    {
        let ghost before = texts(out@);
        let ghost done = part@;
        assert(s@.take(i + 1).drop_last() =~= s@.take(i as int));
        assert(before.push(done).drop_last() =~= before);
        if chars[i] == c {
            out.push(part);
            part = String::new();
            assert(texts(out@) =~= before.push(done));
        } else {
            part.push(chars[i]);
        }
        i = i + 1;
    }
    let ghost before = texts(out@);
    let ghost done = part@;
    out.push(part);
    assert(texts(out@) =~= before.push(done));
    assert(s@.take(i as int) =~= s@);
    out
}

/// The lines of a text.
pub fn lines(s: &str) -> (r: Vec<String>)
    ensures
        texts(r@) == text_lines(s@),
{
    let parts = split_on(s, '\n');
    proof {
        lemma_split_parts(s@, '\n');
    }
    let ghost all = texts(parts@);
    let mut out: Vec<String> = Vec::new();
    let mut i: usize = 0;
    while i < parts.len() - 1
        invariant
            i < parts@.len(),
            texts(parts@) == split(s@, '\n'),
            texts(out@) == split(s@, '\n').take(i as int).map_values(|l: Seq<char>| without_cr(l)),
        decreases parts.len() - 1 - i,
    {
        let ghost before = texts(out@);
        let line = trim_cr(&parts[i]);
        let ghost done = line@;
        assert(done == without_cr(split(s@, '\n')[i as int])) by {
            assert(texts(parts@)[i as int] == parts@[i as int]@);
        }
        out.push(line);
        assert(texts(out@) =~= before.push(done));
        assert(split(s@, '\n').take(i + 1) =~= split(s@, '\n').take(i as int).push(
            split(s@, '\n')[i as int],
        ));
        i = i + 1;
    }
    assert(all.take(i as int) =~= all.drop_last());
    let ghost before = texts(out@);
    assert(texts(parts@)[i as int] == parts@[i as int]@);
    let tail = parts[i].clone();
    if !tail.as_str().is_empty() {
        let ghost done = tail@;
        out.push(tail);
        assert(texts(out@) =~= before.push(done));
    }
    out
}

/// A line without the carriage return at its end.
pub fn trim_cr(line: &String) -> (r: String)
    ensures
        r@ == without_cr(line@),
{
    let mut out = line.clone();
    let last = out.pop();
    match last {
        Some(c) => {
            if c != '\r' {
                out.push(c);
                assert(out@ =~= line@);
            }
        },
        None => {},
    }
    out
}

/// The parts with `sep` between each two neighbours, as `itertools::Itertools::join` puts
/// them together: the empty string where there are no parts, else the first part and then
/// `sep` and a part in turn.
#[verifier::external_body]
pub(crate) fn join(parts: &Vec<String>, sep: &str) -> (r: String)
    ensures
        r@ == joined(texts(parts@), sep@),
{
    itertools::Itertools::join(&mut parts.iter(), sep)
}

/// The characters of `pat` are those of `s` from position `i` on.
pub open spec fn stands(s: Seq<char>, pat: Seq<char>, i: int) -> bool {
    &&& 0 <= i
    &&& i + pat.len() <= s.len()
    &&& forall|j: int| 0 <= j < pat.len() ==> s[i + j] == #[trigger] pat[j]
}

/// A text stands in another where each of its characters does.
pub proof fn law_match_is_character_by_character(s: Seq<char>, pat: Seq<char>, i: int)
    ensures
        matches_at(s, pat, i) <==> stands(s, pat, i),
{
    if matches_at(s, pat, i) {
        assert forall|j: int| 0 <= j < pat.len() implies s[i + j] == #[trigger] pat[j] by {
            assert(s.subrange(i, i + pat.len())[j] == pat[j]);
        }
    }
    if stands(s, pat, i) {
        assert(s.subrange(i, i + pat.len()) =~= pat);
    }
}

/// Strings taken by their contents keep their number and order.
pub proof fn law_texts_are_the_contents(strings: Seq<String>)
    ensures
        texts(strings).len() == strings.len(),
        forall|i: int| 0 <= i < strings.len() ==> #[trigger] texts(strings)[i] == strings[i]@,
{
}

/// Splitting cuts at every separator and nowhere else: no part holds the separator, and the
/// parts, each followed by the separator, make the text followed by the separator.
pub proof fn law_split_cuts_at_every_separator(s: Seq<char>, c: char)
    ensures
        forall|i: int, j: int|
            0 <= i < split(s, c).len() && 0 <= j < split(s, c)[i].len() ==> #[trigger] split(
                s,
                c,
            )[i][j] != c,
        split(s, c).map_values(|part: Seq<char>| part.push(c)).flatten() == s.push(c),
{
    lemma_split_parts(s, c);
    assert forall|i: int, j: int|
        0 <= i < split(s, c).len() && 0 <= j < split(s, c)[i].len() implies #[trigger] split(
        s,
        c,
    )[i][j] != c by {
        assert(!split(s, c)[i].contains(c));
    }
    lemma_split_flat(s, c);
}

/// The parts, each followed by the separator, make the text followed by the separator.
proof fn lemma_split_flat(s: Seq<char>, c: char)
    ensures
        split(s, c).map_values(|part: Seq<char>| part.push(c)).flatten() == s.push(c),
    decreases s.len(),
{
    let close = |part: Seq<char>| part.push(c);
    let parts = split(s, c);
    if s.len() == 0 {
        assert(parts.map_values(close) =~= Seq::<Seq<char>>::empty().push(seq![c]));
        Seq::<Seq<char>>::empty().lemma_flatten_push(seq![c]);
        assert(s.push(c) =~= seq![c]);
        assert(Seq::<Seq<char>>::empty().flatten() + seq![c] =~= seq![c]);
    } else {
        let init = s.drop_last();
        let before = split(init, c);
        lemma_split_flat(init, c);
        lemma_split_parts(init, c);
        assert(init.push(s.last()) =~= s);
        if s.last() == c {
            assert(parts.map_values(close) =~= before.map_values(close).push(seq![c])) by {
                assert(Seq::<char>::empty().push(c) =~= seq![c]);
            }
            before.map_values(close).lemma_flatten_push(seq![c]);
            assert(s + seq![c] =~= s.push(c));
        } else {
            let head = before.drop_last().map_values(close);
            assert(before.map_values(close) =~= head.push(before.last().push(c)));
            head.lemma_flatten_push(before.last().push(c));
            let grown = before.last().push(s.last());
            assert(parts.map_values(close) =~= head.push(grown.push(c)));
            head.lemma_flatten_push(grown.push(c));
            assert(head.flatten() + before.last() =~= init) by {
                assert((head.flatten() + before.last().push(c)).drop_last() =~= head.flatten()
                    + before.last());
                assert(init.push(c).drop_last() =~= init);
            }
            assert(head.flatten() + grown.push(c) =~= (head.flatten() + before.last()).push(
                s.last(),
            ).push(c));
        }
    }
}

/// Joining parts puts the separator in front of each but the first.
pub proof fn law_joined_puts_the_separator_between(parts: Seq<Seq<char>>, sep: Seq<char>)
    ensures
        parts.len() == 0 ==> joined(parts, sep) == Seq::<char>::empty(),
        parts.len() > 0 ==> joined(parts, sep) == parts[0] + parts.skip(1).map_values(
            |part: Seq<char>| sep + part,
        ).flatten(),
    decreases parts.len(),
{
    let tail = |part: Seq<char>| sep + part;
    if parts.len() == 1 {
        assert(parts.skip(1).map_values(tail) =~= Seq::<Seq<char>>::empty());
        assert(parts[0] + Seq::<char>::empty() =~= parts[0]);
    } else if parts.len() > 1 {
        let init = parts.drop_last();
        law_joined_puts_the_separator_between(init, sep);
        let front = init.skip(1).map_values(tail);
        assert(parts.skip(1).map_values(tail) =~= front.push(sep + parts.last()));
        front.lemma_flatten_push(sep + parts.last());
        assert(joined(parts, sep) =~= parts[0] + (front.flatten() + (sep + parts.last())));
    }
}

/// The text made of lines is one line after the other, each with a newline at its end.
pub proof fn law_unlines_ends_every_line(lines: Seq<Seq<char>>)
    ensures
        unlines(lines) == lines.map_values(|l: Seq<char>| l.push('\n')).flatten(),
    decreases lines.len(),
{
    let close = |l: Seq<char>| l.push('\n');
    if lines.len() == 0 {
        assert(lines.map_values(close) =~= Seq::<Seq<char>>::empty());
    } else {
        let init = lines.drop_last();
        law_unlines_ends_every_line(init);
        assert(lines.map_values(close) =~= init.map_values(close).push(lines.last().push('\n')));
        init.map_values(close).lemma_flatten_push(lines.last().push('\n'));
        assert(unlines(init) + lines.last() + seq!['\n'] =~= unlines(init) + lines.last().push(
            '\n',
        ));
    }
}

/// What may stand behind a line: a newline, of which a carriage return before it is part, or
/// nothing behind the last line, if that has characters.
pub open spec fn is_line_end(line: Seq<char>, end: Seq<char>, is_last: bool) -> bool {
    ||| end == seq!['\n'] && (line.len() > 0 ==> line.last() != '\r')
    ||| end == seq!['\r', '\n']
    ||| end.len() == 0 && is_last && line.len() > 0
}

/// The lines are those of the text, which holds them one after the other, each followed by its
/// line end.
pub open spec fn makes_text(lines: Seq<Seq<char>>, ends: Seq<Seq<char>>, s: Seq<char>) -> bool {
    &&& lines.len() == ends.len()
    &&& forall|i: int, j: int|
        0 <= i < lines.len() && 0 <= j < lines[i].len() ==> #[trigger] lines[i][j] != '\n'
    &&& forall|i: int|
        0 <= i < lines.len() ==> is_line_end(
            #[trigger] lines[i],
            ends[i],
            i == lines.len() - 1,
        )
    &&& Seq::new(lines.len(), |i: int| lines[i] + ends[i]).flatten() == s
}

/// The lines of a text, with their line ends, make the text.
pub proof fn law_lines_make_the_text(s: Seq<char>)
    ensures
        exists|ends: Seq<Seq<char>>| #[trigger] makes_text(text_lines(s), ends, s),
{
    let parts = split(s, '\n');
    let n = parts.len() - 1;
    let all = text_lines(s);
    let close = |part: Seq<char>| part.push('\n');
    lemma_split_parts(s, '\n');
    lemma_split_flat(s, '\n');
    let ends = Seq::new(
        all.len(),
        |i: int|
            if i >= n {
                Seq::empty()
            } else if parts[i].len() > 0 && parts[i].last() == '\r' {
                seq!['\r', '\n']
            } else {
                seq!['\n']
            },
    );
    assert forall|i: int, j: int|
        0 <= i < all.len() && 0 <= j < all[i].len() implies #[trigger] all[i][j] != '\n' by {
        assert(!parts[i].contains('\n'));
        assert(all[i][j] == parts[i][j]);
    }
    let pieces = Seq::new(all.len(), |i: int| all[i] + ends[i]);
    let head = parts.drop_last().map_values(close);
    assert forall|i: int| 0 <= i < n implies pieces[i] == head[i] && is_line_end(
        all[i],
        ends[i],
        i == all.len() - 1,
    ) by {
        assert(all[i] == without_cr(parts[i]));
        assert(pieces[i] =~= parts[i].push('\n'));
        if ends[i] == seq!['\n'] && all[i].len() > 0 {
            assert(all[i] == parts[i]);
        }
    }
    assert(parts.map_values(close) =~= head.push(parts.last().push('\n')));
    head.lemma_flatten_push(parts.last().push('\n'));
    assert(head.flatten() + parts.last() =~= s) by {
        assert((head.flatten() + parts.last().push('\n')).drop_last() =~= head.flatten()
            + parts.last());
        assert(s.push('\n').drop_last() =~= s);
    }
    if parts.last().len() == 0 {
        assert(pieces =~= head);
        assert(head.flatten() + parts.last() =~= head.flatten());
    } else {
        assert(pieces.last() =~= parts.last());
        assert(pieces =~= head.push(parts.last()));
        head.lemma_flatten_push(parts.last());
    }
    assert(makes_text(all, ends, s));
}

/// Joining with a part in front.
proof fn lemma_joined_front(first: Seq<char>, rest: Seq<Seq<char>>, sep: Seq<char>)
    requires
        rest.len() > 0,
    ensures
        joined(seq![first] + rest, sep) == first + sep + joined(rest, sep),
    decreases rest.len(),
{
    let all = seq![first] + rest;
    assert(all.last() == rest.last());
    assert(all.drop_last() =~= seq![first] + rest.drop_last());
    if rest.len() == 1 {
        assert(all.drop_last() =~= seq![first]);
        assert(joined(seq![first], sep) == first);
        assert(joined(rest, sep) == rest[0]);
    } else {
        lemma_joined_front(first, rest.drop_last(), sep);
        assert(joined(all, sep) =~= first + sep + joined(rest, sep));
    }
}

/// The pieces of `s` between the leftmost occurrences of `pat` that do not overlap: put together
/// with `pat` between them they make `s`, `pat` stands in no piece, and it does not begin in one
/// that it ends before the next cut.
pub open spec fn are_pieces(pieces: Seq<Seq<char>>, s: Seq<char>, pat: Seq<char>) -> bool {
    &&& pieces.len() > 0
    &&& joined(pieces, pat) == s
    &&& forall|i: int| !#[trigger] stands(pieces.last(), pat, i)
    &&& forall|k: int, i: int|
        0 <= k < pieces.len() - 1 && #[trigger] stands(pieces[k] + pat, pat, i) ==> i
            == pieces[k].len()
}

/// What stands in a part of a text stands in the text.
proof fn lemma_stands_in_part(s: Seq<char>, from: int, to: int, pat: Seq<char>, q: int)
    requires
        0 <= from <= to <= s.len(),
        stands(s.subrange(from, to), pat, q),
    ensures
        matches_at(s, pat, from + q),
{
    let part = s.subrange(from, to);
    assert forall|j: int| 0 <= j < pat.len() implies s[from + q + j] == #[trigger] pat[j] by {
        assert(part[q + j] == pat[j]);
    }
    law_match_is_character_by_character(s, pat, from + q);
}

/// Pieces with one more in front.
proof fn lemma_piece_in_front(
    piece: Seq<char>,
    rest: Seq<Seq<char>>,
    s: Seq<char>,
    pat: Seq<char>,
)
    requires
        are_pieces(rest, s, pat),
        forall|q: int| #[trigger] stands(piece + pat, pat, q) ==> q == piece.len(),
    ensures
        are_pieces(seq![piece] + rest, piece + pat + s, pat),
{
    let pieces = seq![piece] + rest;
    lemma_joined_front(piece, rest, pat);
    assert(pieces.last() == rest.last());
    assert forall|k: int, q: int|
        0 <= k < pieces.len() - 1 && #[trigger] stands(pieces[k] + pat, pat, q) implies q
        == pieces[k].len() by {
        if k > 0 {
            assert(pieces[k] == rest[k - 1]);
            assert(stands(rest[k - 1] + pat, pat, q));
        }
    }
}

/// The pieces of the rest of `s` from `from` on.
proof fn lemma_replaced_pieces(s: Seq<char>, pat: Seq<char>, by: Seq<char>, from: int) -> (pieces:
    Seq<Seq<char>>)
    requires
        pat.len() > 0,
        0 <= from <= s.len(),
    ensures
        are_pieces(pieces, s.skip(from), pat),
        joined(pieces, by) == replaced_from(s, pat, by, from),
    decreases s.len() - from,
{
    lemma_first_match(s, pat, from);
    match first_match(s, pat, from) {
        Some(i) => {
            let piece = s.subrange(from, i);
            let next = i + pat.len();
            let rest = lemma_replaced_pieces(s, pat, by, next);
            assert(piece + pat =~= s.subrange(from, next)) by {
                assert(s.subrange(i, next) == pat);
                assert(piece + s.subrange(i, next) =~= s.subrange(from, next));
            }
            assert forall|q: int| #[trigger] stands(piece + pat, pat, q) implies q
                == piece.len() by {
                lemma_stands_in_part(s, from, next, pat, q);
            }
            lemma_piece_in_front(piece, rest, s.skip(next), pat);
            assert(s.subrange(from, next) + s.skip(next) =~= s.skip(from));
            lemma_joined_front(piece, rest, by);
            seq![piece] + rest
        },
        None => {
            let pieces = seq![s.skip(from)];
            assert(s.skip(from) =~= s.subrange(from, s.len() as int));
            assert forall|i: int| !#[trigger] stands(pieces.last(), pat, i) by {
                if stands(pieces.last(), pat, i) {
                    lemma_stands_in_part(s, from, s.len() as int, pat, i);
                }
            }
            pieces
        },
    }
}

/// Replacing cuts the text at all of its leftmost occurrences of the pattern that do not overlap,
/// to the end of the text, and puts the replacement in the place of each.
pub proof fn law_replacing_cuts_at_every_occurrence(s: Seq<char>, pat: Seq<char>, by: Seq<char>)
    requires
        pat.len() > 0,
    ensures
        exists|pieces: Seq<Seq<char>>| #[trigger]
            are_pieces(pieces, s, pat) && joined(pieces, by) == replaced(s, pat, by),
{
    let pieces = lemma_replaced_pieces(s, pat, by, 0);
    assert(s.skip(0) =~= s);
    assert(are_pieces(pieces, s, pat) && joined(pieces, by) == replaced(s, pat, by));
}

/// No part of `by` makes `pat` together with what stands beside it: neither holds the other, no
/// beginning of `by` is the end of `pat`, and no end of `by` is its beginning.
pub open spec fn brings_nothing_back(pat: Seq<char>, by: Seq<char>) -> bool {
    &&& forall|i: int| !#[trigger] stands(by, pat, i)
    &&& forall|i: int| !#[trigger] stands(pat, by, i)
    &&& forall|n: int|
        0 < n < pat.len() && n <= by.len() ==> #[trigger] by.take(n) != pat.skip(pat.len() - n)
    &&& forall|n: int|
        0 < n < pat.len() && n <= by.len() ==> #[trigger] pat.take(n) != by.skip(by.len() - n)
}

/// The replaced pattern does not stand in what is made of the rest of `s` from `from` on.
proof fn lemma_replaced_is_gone(s: Seq<char>, pat: Seq<char>, by: Seq<char>, from: int, q: int)
    requires
        pat.len() > 0,
        brings_nothing_back(pat, by),
        0 <= from <= s.len(),
    ensures
        !stands(replaced_from(s, pat, by, from), pat, q),
    decreases s.len() - from,
{
    lemma_first_match(s, pat, from);
    let all = replaced_from(s, pat, by, from);
    if stands(all, pat, q) {
        match first_match(s, pat, from) {
            Some(i) => {
                let piece = s.subrange(from, i);
                let next = i + pat.len();
                let rest = replaced_from(s, pat, by, next);
                let a = piece.len() as int;
                let b = by.len() as int;
                lemma_replaced_is_gone(s, pat, by, next, q - a - b);
                assert(all == piece + by + rest);
                assert forall|j: int| 0 <= j < pat.len() implies all[q + j]
                    == #[trigger] pat[j] by {}
                if q >= a + b {
                    assert forall|j: int| 0 <= j < pat.len() implies rest[q - a - b + j]
                        == #[trigger] pat[j] by {
                        assert(all[q + j] == rest[q + j - a - b]);
                    }
                    assert(stands(rest, pat, q - a - b));
                } else if q >= a {
                    let o = q - a;
                    if o + pat.len() <= b {
                        assert forall|j: int| 0 <= j < pat.len() implies by[o + j]
                            == #[trigger] pat[j] by {
                            assert(all[q + j] == by[o + j]);
                        }
                        assert(stands(by, pat, o));
                    } else {
                        let n = b - o;
                        assert forall|j: int| 0 <= j < n implies pat[j] == by[o + j] by {
                            assert(all[q + j] == by[o + j]);
                        }
                        assert(pat.take(n) =~= by.skip(b - n));
                    }
                } else if q + pat.len() <= a {
                    assert forall|j: int| 0 <= j < pat.len() implies s[from + q + j]
                        == #[trigger] pat[j] by {
                        assert(all[q + j] == piece[q + j]);
                    }
                    law_match_is_character_by_character(s, pat, from + q);
                } else {
                    let n = q + pat.len() - a;
                    if n <= b {
                        assert forall|j: int| 0 <= j < n implies by[j] == pat[pat.len() - n + j] by {
                            assert(all[q + (pat.len() - n + j)] == by[j]);
                            assert(all[q + (pat.len() - n + j)] == pat[pat.len() - n + j]);
                        }
                        assert(by.take(n) =~= pat.skip(pat.len() - n));
                    } else {
                        assert forall|j: int| 0 <= j < b implies pat[a - q + j]
                            == #[trigger] by[j] by {
                            assert(all[q + (a - q + j)] == by[j]);
                            assert(all[q + (a - q + j)] == pat[a - q + j]);
                        }
                        assert(stands(pat, by, a - q));
                    }
                }
            },
            None => {
                assert forall|j: int| 0 <= j < pat.len() implies s[from + q + j]
                    == #[trigger] pat[j] by {
                    assert(all[q + j] == s[from + q + j]);
                }
                law_match_is_character_by_character(s, pat, from + q);
            },
        }
    }
}

/// After replacing, the pattern stands nowhere in the text, on whatever line. Left out are
/// replacements that bring it back.
pub proof fn law_replaced_text_is_gone(s: Seq<char>, pat: Seq<char>, by: Seq<char>)
    requires
        pat.len() > 0,
        brings_nothing_back(pat, by),
    ensures
        forall|i: int| !#[trigger] stands(replaced(s, pat, by), pat, i),
{
    assert forall|i: int| !#[trigger] stands(replaced(s, pat, by), pat, i) by {
        lemma_replaced_is_gone(s, pat, by, 0, i);
    }
}

} // verus!
