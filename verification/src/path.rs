//! Paths as texts: their parts, joining them, and when two of them name the same file.
use vstd::prelude::*;

use crate::text::{from_chars, join, replace, split_on, stands_at, to_chars};
#[allow(unused_imports)]
use crate::text::{
    first_match, joined, lemma_first_match, lemma_split_extend, lemma_split_parts, matches_at,
    replaced, replaced_from, split, texts,
};

verus! {

/// The path starts at the root.
pub open spec fn is_absolute(p: Seq<char>) -> bool {
    p.len() > 0 && p[0] == '/'
}

/// A part between slashes that leads somewhere: neither empty nor a single dot.
pub open spec fn is_step(part: Seq<char>) -> bool {
    part.len() > 0 && part != "."@
}

/// The parts that lead somewhere.
pub open spec fn steps(parts: Seq<Seq<char>>) -> Seq<Seq<char>>
    decreases parts.len(),
{
    if parts.len() == 0 {
        Seq::empty()
    } else if is_step(parts.last()) {
        steps(parts.drop_last()).push(parts.last())
    } else {
        steps(parts.drop_last())
    }
}

/// The components of a path: the root or a leading dot, where there is one, and then each part
/// that leads somewhere.
pub open spec fn components(p: Seq<char>) -> Seq<Seq<char>> {
    let parts = split(p, '/');
    let first = if is_absolute(p) {
        seq!["/"@]
    } else if parts[0] == "."@ {
        seq!["."@]
    } else {
        Seq::empty()
    };
    first + steps(parts)
}

/// The paths are equal: they have the same components.
pub open spec fn same_path(p: Seq<char>, q: Seq<char>) -> bool {
    components(p) == components(q)
}

/// `p` as seen from `base`; an absolute `p` stays as it is.
pub open spec fn path_join(base: Seq<char>, p: Seq<char>) -> Seq<char> {
    if is_absolute(p) {
        p
    } else if base.len() > 0 && base.last() != '/' {
        base + "/"@ + p
    } else {
        base + p
    }
}

/// The parts from the first on that leads somewhere.
pub open spec fn from_first_step(parts: Seq<Seq<char>>) -> Seq<Seq<char>>
    decreases parts.len(),
{
    if parts.len() > 0 && !is_step(parts[0]) {
        from_first_step(parts.skip(1))
    } else {
        parts
    }
}

/// The parts up to the last that leads somewhere.
pub open spec fn to_last_step(parts: Seq<Seq<char>>) -> Seq<Seq<char>>
    decreases parts.len(),
{
    if parts.len() > 0 && !is_step(parts.last()) {
        to_last_step(parts.drop_last())
    } else {
        parts
    }
}

/// What is left of a path behind the directory `dir` that it starts with.
pub open spec fn path_within(p: Seq<char>, dir: Seq<char>) -> Option<Seq<char>> {
    let parts = split(p, '/');
    if parts[0] == dir {
        Some(joined(to_last_step(from_first_step(parts.skip(1))), "/"@))
    } else {
        None
    }
}

/// The last component of a path, unless it is the root, the current or the parent directory.
pub open spec fn file_name(p: Seq<char>) -> Option<Seq<char>> {
    let s = steps(split(p, '/'));
    if s.len() > 0 && s.last() != ".."@ {
        Some(s.last())
    } else {
        None
    }
}

/// The text ends in `.patch`.
pub open spec fn ends_in_patch(s: Seq<char>) -> bool {
    matches_at(s, ".patch"@, s.len() - ".patch"@.len())
}

/// The extension of the path is `patch`.
pub open spec fn is_patch_path(p: Seq<char>) -> bool {
    match file_name(p) {
        Some(name) => name.len() > ".patch"@.len() && ends_in_patch(name),
        None => false,
    }
}

/// The name of a patch file with a slash for each dash.
pub open spec fn dashes_as_slashes(p: Seq<char>) -> Seq<char> {
    match file_name(p) {
        Some(name) => replaced(name, "-"@, "/"@),
        None => Seq::empty(),
    }
}

/// The path has a file name, and that name ends in `.patch`.
pub open spec fn names_a_target(p: Seq<char>) -> bool {
    file_name(p) is Some && ends_in_patch(dashes_as_slashes(p))
}

/// The file that a patch file is for, by the convention that its name is the path of that file
/// with dashes for slashes, followed by `.patch`.
pub open spec fn conventional_target(p: Seq<char>) -> Seq<char> {
    let s = dashes_as_slashes(p);
    path_join("/"@, s.take(s.len() - ".patch"@.len()))
}

/// Whether the path starts at the root.
pub fn starts_at_root(p: &str) -> (r: bool)
    ensures
        r == is_absolute(p@),
{
    proof {
        reveal_strlit("/");
        if matches_at(p@, "/"@, 0) {
            assert(p@.subrange(0, 1)[0] == p@[0]);
        }
        if is_absolute(p@) {
            assert(p@.subrange(0, 1) =~= "/"@);
        }
    }
    stands_at(&to_chars(p), &to_chars("/"), 0)
}

/// `p` as seen from `base`; an absolute `p` stays as it is.
pub fn join_path(base: &str, p: &str) -> (r: String)
    ensures
        r@ == path_join(base@, p@),
{
    if starts_at_root(p) {
        return p.to_owned();
    }
    let chars = to_chars(base);
    let mut out = base.to_owned();
    if chars.len() > 0 && chars[chars.len() - 1] != '/' {
        out.append("/");
    }
    out.append(p);
    out
}

/// Whether a part between slashes leads somewhere.
fn leads_somewhere(part: &String) -> (r: bool)
    ensures
        r == is_step(part@),
{
    !part.as_str().is_empty() && *part != ".".to_owned()
}

/// The parts that lead somewhere.
fn keep_steps(parts: &Vec<String>) -> (r: Vec<String>)
    ensures
        texts(r@) == steps(texts(parts@)),
{
    let ghost all = texts(parts@);
    let mut out: Vec<String> = Vec::new();
    let mut i: usize = 0;
    assert(texts(out@) =~= steps(all.take(0)));
    while i < parts.len()
        invariant
            i <= parts@.len(),
            all == texts(parts@),
            texts(out@) == steps(all.take(i as int)),
        decreases parts.len() - i,
    {
        let ghost before = texts(out@);
        assert(all.take(i + 1).drop_last() =~= all.take(i as int));
        assert(all.take(i + 1).last() == parts@[i as int]@);
        if leads_somewhere(&parts[i]) {
            out.push(parts[i].clone());
            assert(texts(out@) =~= before.push(parts@[i as int]@));
        }
        i = i + 1;
    }
    assert(all.take(i as int) =~= all);
    out
}

/// The components of a path.
fn path_components(p: &str) -> (r: Vec<String>)
    ensures
        texts(r@) == components(p@),
{
    let parts = split_on(p, '/');
    proof {
        lemma_split_parts(p@, '/');
        assert(texts(parts@)[0] == parts@[0]@);
    }
    let mut out: Vec<String> = Vec::new();
    if starts_at_root(p) {
        out.push("/".to_owned());
        assert(texts(out@) =~= seq!["/"@]);
    } else if parts[0] == ".".to_owned() {
        out.push(".".to_owned());
        assert(texts(out@) =~= seq!["."@]);
    } else {
        assert(texts(out@) =~= Seq::empty());
    }
    let ghost first = texts(out@);
    let mut rest = keep_steps(&parts);
    let ghost more = texts(rest@);
    out.append(&mut rest);
    assert(texts(out@) =~= first + more);
    out
}

/// Whether two lists of strings are the same.
fn same_strings(a: &Vec<String>, b: &Vec<String>) -> (r: bool)
    ensures
        r == (texts(a@) == texts(b@)),
{
    if a.len() != b.len() {
        assert(texts(a@).len() != texts(b@).len());
        return false;
    }
    let mut i: usize = 0;
    while i < a.len()
        invariant
            i <= a@.len(),
            a@.len() == b@.len(),
            forall|j: int| 0 <= j < i ==> texts(a@)[j] == texts(b@)[j],
        decreases a.len() - i,
    {
        if a[i] != b[i] {
            assert(texts(a@)[i as int] != texts(b@)[i as int]);
            return false;
        }
        i = i + 1;
    }
    assert(texts(a@) =~= texts(b@));
    true
}

/// Whether two paths are equal.
pub fn paths_equal(p: &str, q: &str) -> (r: bool)
    ensures
        r == same_path(p@, q@),
{
    same_strings(&path_components(p), &path_components(q))
}

/// What is left of a path behind the directory `dir` that it starts with.
pub fn within(p: &str, dir: &str) -> (r: Option<String>)
    ensures
        match r {
            Some(rest) => path_within(p@, dir@) == Some(rest@),
            None => path_within(p@, dir@) is None,
        },
{
    let parts = split_on(p, '/');
    let ghost all = split(p@, '/');
    proof {
        lemma_split_parts(p@, '/');
        assert(all.len() == parts@.len());
        assert(all[0] == parts@[0]@);
    }
    if parts[0] != dir.to_owned() {
        return None;
    }
    let mut from: usize = 1;
    while from < parts.len() && !leads_somewhere(&parts[from])
        invariant
            1 <= from <= parts@.len(),
            all == texts(parts@),
            from_first_step(all.skip(from as int)) == from_first_step(all.skip(1)),
        decreases parts.len() - from,
    {
        assert(all.skip(from as int)[0] == parts@[from as int]@);
        assert(all.skip(from as int).skip(1) =~= all.skip(from + 1));
        from = from + 1;
    }
    if from < parts.len() {
        assert(all.skip(from as int)[0] == parts@[from as int]@);
    }
    let mut to: usize = parts.len();
    assert(all.skip(from as int) =~= all.subrange(from as int, to as int));
    while to > from && !leads_somewhere(&parts[to - 1])
        invariant
            1 <= from <= to <= parts@.len(),
            all == texts(parts@),
            to_last_step(all.subrange(from as int, to as int)) == to_last_step(
                all.skip(from as int),
            ),
        decreases to - from,
    {
        assert(all.subrange(from as int, to as int).last() == parts@[to - 1]@);
        assert(all.subrange(from as int, to as int).drop_last() =~= all.subrange(
            from as int,
            to - 1,
        ));
        to = to - 1;
    }
    if to > from {
        assert(all.subrange(from as int, to as int).last() == parts@[to - 1]@);
    }
    let mut kept: Vec<String> = Vec::new();
    let mut i: usize = from;
    assert(texts(kept@) =~= all.subrange(from as int, from as int));
    while i < to
        invariant
            from <= i <= to <= parts@.len(),
            all == texts(parts@),
            texts(kept@) == all.subrange(from as int, i as int),
        decreases to - i,
    {
        let ghost before = texts(kept@);
        kept.push(parts[i].clone());
        assert(texts(kept@) =~= before.push(parts@[i as int]@));
        assert(all.subrange(from as int, i + 1) =~= before.push(all[i as int]));
        i = i + 1;
    }
    Some(join(&kept, "/"))
}

/// The last component of a path, unless it is the root, the current or the parent directory.
pub fn file_name_of(p: &str) -> (r: Option<String>)
    ensures
        match r {
            Some(name) => file_name(p@) == Some(name@),
            None => file_name(p@) is None,
        },
{
    let all = keep_steps(&split_on(p, '/'));
    let ghost s = steps(split(p@, '/'));
    assert(s.len() == all@.len());
    if all.len() == 0 {
        return None;
    }
    let name = all[all.len() - 1].clone();
    assert(s.last() == all@[all@.len() - 1]@);
    if name == "..".to_owned() {
        None
    } else {
        Some(name)
    }
}

/// Whether the extension of the path is `patch`.
pub fn has_patch_extension(p: &str) -> (r: bool)
    ensures
        r == is_patch_path(p@),
{
    match file_name_of(p) {
        Some(name) => {
            let chars = to_chars(name.as_str());
            let suffix = to_chars(".patch");
            chars.len() > suffix.len() && stands_at(&chars, &suffix, chars.len() - suffix.len())
        },
        None => false,
    }
}

/// The file that a patch file is for by the naming convention, if its name ends in `.patch`.
pub fn target_by_name(p: &str) -> (r: Option<String>)
    ensures
        match r {
            Some(target) => names_a_target(p@) && target@ == conventional_target(p@),
            None => !names_a_target(p@),
        },
{
    proof {
        reveal_strlit("-");
    }
    match file_name_of(p) {
        Some(name) => {
            let chars = to_chars(replace(name.as_str(), "-", "/").as_str());
            let suffix = to_chars(".patch");
            if chars.len() < suffix.len() {
                return None;
            }
            let end: usize = chars.len() - suffix.len();
            if !stands_at(&chars, &suffix, end) {
                return None;
            }
            assert(chars@.subrange(0, end as int) =~= chars@.take(end as int));
            Some(join_path("/", from_chars(&chars, 0, end).as_str()))
        },
        None => None,
    }
}

/// The character, or `b` in the place of `a`.
pub open spec fn swapped(c: char, a: char, b: char) -> char {
    if c == a {
        b
    } else {
        c
    }
}

/// Replacing one character by another changes the text character by character.
proof fn lemma_replaced_char(s: Seq<char>, a: char, b: char, from: int)
    requires
        0 <= from <= s.len(),
    ensures
        replaced_from(s, seq![a], seq![b], from) == s.skip(from).map_values(
            |c: char| swapped(c, a, b),
        ),
    decreases s.len() - from,
{
    let pat = seq![a];
    lemma_first_match(s, pat, from);
    assert forall|j: int| from <= j < s.len() && s[j] == a implies matches_at(s, pat, j) by {
        assert(s.subrange(j, j + 1) =~= pat);
    }
    match first_match(s, pat, from) {
        Some(i) => {
            assert(s.subrange(i, i + 1)[0] == s[i]);
            lemma_replaced_char(s, a, b, i + 1);
            assert(replaced_from(s, pat, seq![b], from) =~= s.skip(from).map_values(
                |c: char| swapped(c, a, b),
            ));
        },
        None => {
            assert(s.skip(from) =~= s.skip(from).map_values(|c: char| swapped(c, a, b)));
        },
    }
}

/// The name of a patch file with slashes for dashes, character by character.
proof fn lemma_dashes(p: Seq<char>, name: Seq<char>)
    requires
        file_name(p) == Some(name),
    ensures
        dashes_as_slashes(p) == name.map_values(|c: char| swapped(c, '-', '/')),
{
    reveal_strlit("-");
    reveal_strlit("/");
    assert("-"@ =~= seq!['-']);
    assert("/"@ =~= seq!['/']);
    lemma_replaced_char(name, '-', '/', 0);
    assert(name.skip(0) =~= name);
}

/// The name that the convention gives to the patch file for a file: its path with dashes for
/// slashes, followed by `.patch`.
pub open spec fn conventional_name(target: Seq<char>) -> Seq<char> {
    target.map_values(|c: char| swapped(c, '/', '-')) + ".patch"@
}

/// A patch file that has the name which the convention gives it is found to be for that file.
/// Left out are files with a dash in their path, which the convention cannot tell from a slash.
pub proof fn law_conventional_name_leads_back(p: Seq<char>, target: Seq<char>)
    requires
        !target.contains('-'),
        file_name(p) == Some(conventional_name(target)),
    ensures
        names_a_target(p),
        conventional_target(p) == path_join("/"@, target),
{
    let name = conventional_name(target);
    lemma_dashes(p, name);
    reveal_strlit(".patch");
    let s = dashes_as_slashes(p);
    assert forall|i: int| 0 <= i < target.len() implies s[i] == target[i] by {
        assert(target[i] != '-');
    }
    assert(s.subrange(s.len() - ".patch"@.len(), s.len() as int) =~= ".patch"@);
    assert(s.take(s.len() - ".patch"@.len()) =~= target);
}

/// Every file with the extension `patch` has a name from which the file that it is for can be
/// told.
pub proof fn law_patch_files_name_a_target(p: Seq<char>)
    requires
        is_patch_path(p),
    ensures
        names_a_target(p),
{
    let name = file_name(p)->0;
    lemma_dashes(p, name);
    reveal_strlit(".patch");
    let at = name.len() - ".patch"@.len();
    let s = dashes_as_slashes(p);
    assert forall|i: int| 0 <= i < ".patch"@.len() implies s[at + i] == ".patch"@[i] by {
        assert(name.subrange(at, name.len() as int)[i] == name[at + i]);
    }
    assert(s.subrange(at, s.len() as int) =~= ".patch"@);
}

/// A slash in front adds an empty part.
proof fn lemma_split_rooted(x: Seq<char>)
    ensures
        split("/"@ + x, '/') == seq![Seq::<char>::empty()] + split(x, '/'),
    decreases x.len(),
{
    reveal_strlit("/");
    let root = seq![Seq::<char>::empty()];
    if x.len() == 0 {
        assert("/"@ + x =~= "/"@);
        assert("/"@.drop_last() =~= Seq::<char>::empty());
        assert(split(Seq::<char>::empty(), '/') =~= root);
        assert(split("/"@, '/') =~= root.push(Seq::empty()));
        assert(split("/"@ + x, '/') =~= root + split(x, '/'));
    } else {
        lemma_split_rooted(x.drop_last());
        lemma_split_parts(x.drop_last(), '/');
        assert(("/"@ + x).drop_last() =~= "/"@ + x.drop_last());
        assert(("/"@ + x).last() == x.last());
        let before = split(x.drop_last(), '/');
        assert((root + before).drop_last() =~= root + before.drop_last());
        assert((root + before).last() == before.last());
        assert(split("/"@ + x, '/') =~= root + split(x, '/'));
    }
}

/// A part in front that leads nowhere can be left out.
proof fn lemma_steps_behind(first: Seq<char>, parts: Seq<Seq<char>>)
    requires
        !is_step(first),
    ensures
        steps(seq![first] + parts) == steps(parts),
    decreases parts.len(),
{
    let front = seq![first];
    if parts.len() == 0 {
        assert((front + parts).drop_last() =~= Seq::<Seq<char>>::empty());
        assert(!is_step((front + parts).last()));
        assert(steps(parts) =~= steps(Seq::<Seq<char>>::empty()));
    } else {
        lemma_steps_behind(first, parts.drop_last());
        assert((front + parts).drop_last() =~= front + parts.drop_last());
        assert((front + parts).last() == parts.last());
    }
}

/// Paths from the root: equal relative paths name equal files.
pub proof fn law_equal_paths_stay_equal_from_the_root(p: Seq<char>, q: Seq<char>)
    requires
        !is_absolute(p),
        !is_absolute(q),
        same_path(p, q),
    ensures
        same_path(path_join("/"@, p), path_join("/"@, q)),
{
    reveal_strlit("/");
    reveal_strlit(".");
    lemma_split_rooted(p);
    lemma_split_rooted(q);
    lemma_steps_behind(Seq::empty(), split(p, '/'));
    lemma_steps_behind(Seq::empty(), split(q, '/'));
    lemma_all_steps(split(p, '/'));
    lemma_all_steps(split(q, '/'));
    let cp = components(p);
    let cq = components(q);
    let dot_p = split(p, '/')[0] == "."@;
    let dot_q = split(q, '/')[0] == "."@;
    if dot_p {
        assert(cp[0] == "."@);
        assert(dot_q);
    }
    if dot_q {
        assert(cq[0] == "."@);
        assert(dot_p);
    }
    if dot_p {
        assert(steps(split(p, '/')) =~= cp.skip(1));
        assert(steps(split(q, '/')) =~= cq.skip(1));
    } else {
        assert(steps(split(p, '/')) =~= cp);
        assert(steps(split(q, '/')) =~= cq);
    }
    assert(("/"@ + p)[0] == '/');
    assert(("/"@ + q)[0] == '/');
}

/// The parts that lead somewhere do so.
proof fn lemma_all_steps(parts: Seq<Seq<char>>)
    ensures
        forall|i: int| 0 <= i < steps(parts).len() ==> is_step(#[trigger] steps(parts)[i]),
    decreases parts.len(),
{
    if parts.len() > 0 {
        lemma_all_steps(parts.drop_last());
        let before = steps(parts.drop_last());
        assert forall|i: int| 0 <= i < steps(parts).len() implies is_step(
            #[trigger] steps(parts)[i],
        ) by {
            if i < before.len() {
                assert(steps(parts)[i] == before[i]);
            }
        }
    }
}

/// Where the parts start with one that leads somewhere, so does what is joined of them: it is
/// not absolute.
proof fn lemma_joined_relative(parts: Seq<Seq<char>>)
    requires
        parts.len() > 0,
        parts[0].len() > 0,
        parts[0][0] != '/',
    ensures
        joined(parts, "/"@).len() > 0,
        joined(parts, "/"@)[0] != '/',
    decreases parts.len(),
{
    if parts.len() > 1 {
        lemma_joined_relative(parts.drop_last());
    }
}

/// The parts from the first step on start with a step or are none.
proof fn lemma_from_first_step(parts: Seq<Seq<char>>)
    requires
        forall|i: int| 0 <= i < parts.len() ==> !(#[trigger] parts[i]).contains('/'),
    ensures
        from_first_step(parts).len() > 0 ==> is_step(from_first_step(parts)[0])
            && !from_first_step(parts)[0].contains('/'),
    decreases parts.len(),
{
    if parts.len() > 0 && !is_step(parts[0]) {
        let rest = parts.skip(1);
        assert forall|i: int| 0 <= i < rest.len() implies !(#[trigger] rest[i]).contains('/') by {
            assert(rest[i] == parts[i + 1]);
        }
        lemma_from_first_step(rest);
    }
}

/// Leaving out parts at the end keeps the first part.
proof fn lemma_to_last_step(parts: Seq<Seq<char>>)
    ensures
        to_last_step(parts).len() > 0 ==> parts.len() > 0 && to_last_step(parts)[0] == parts[0],
    decreases parts.len(),
{
    if parts.len() > 0 && !is_step(parts.last()) {
        lemma_to_last_step(parts.drop_last());
    }
}

/// What is left of a path behind its first directory is not absolute.
pub proof fn law_rest_of_path_is_relative(p: Seq<char>, dir: Seq<char>)
    requires
        path_within(p, dir) is Some,
    ensures
        !is_absolute(path_within(p, dir)->0),
{
    let parts = split(p, '/');
    lemma_split_parts(p, '/');
    let rest = parts.skip(1);
    assert forall|i: int| 0 <= i < rest.len() implies !(#[trigger] rest[i]).contains('/') by {
        assert(rest[i] == parts[i + 1]);
    }
    lemma_from_first_step(rest);
    let kept = to_last_step(from_first_step(rest));
    lemma_to_last_step(from_first_step(rest));
    if kept.len() > 0 {
        assert(kept[0].contains(kept[0][0]));
        lemma_joined_relative(kept);
    }
}

/// A slash ends the last part and starts another.
proof fn lemma_split_slash(s: Seq<char>, t: Seq<char>)
    requires
        !t.contains('/'),
    ensures
        split(s + "/"@ + t, '/') == split(s, '/').push(t),
{
    reveal_strlit("/");
    let head = s + "/"@;
    assert(head.drop_last() =~= s);
    assert(split(head, '/') =~= split(s, '/').push(Seq::empty()));
    lemma_split_extend(head, t, '/');
    assert(split(s, '/').push(Seq::<char>::empty()).drop_last() =~= split(s, '/'));
    assert(Seq::<char>::empty() + t =~= t);
}

/// Joined parts that hold no slash are told apart again.
proof fn lemma_split_joined(parts: Seq<Seq<char>>)
    requires
        parts.len() > 0,
        forall|i: int| 0 <= i < parts.len() ==> !(#[trigger] parts[i]).contains('/'),
    ensures
        split(joined(parts, "/"@), '/') == parts,
    decreases parts.len(),
{
    assert(!parts[parts.len() - 1].contains('/'));
    if parts.len() == 1 {
        lemma_split_extend(Seq::empty(), parts[0], '/');
        assert(Seq::<char>::empty() + parts[0] =~= parts[0]);
        assert(split(parts[0], '/') =~= parts);
    } else {
        let init = parts.drop_last();
        assert forall|i: int| 0 <= i < init.len() implies !(#[trigger] init[i]).contains('/') by {
            assert(init[i] == parts[i]);
        }
        lemma_split_joined(init);
        lemma_split_slash(joined(init, "/"@), parts.last());
        assert(split(joined(parts, "/"@), '/') =~= parts);
    }
}

/// The parts of a path in a directory are the directory and the parts behind it.
proof fn lemma_split_in_directory(dir: Seq<char>, x: Seq<char>)
    requires
        !dir.contains('/'),
    ensures
        split(dir + "/"@ + x, '/') == seq![dir] + split(x, '/'),
    decreases x.len(),
{
    reveal_strlit("/");
    let path = dir + "/"@ + x;
    let front = seq![dir];
    if x.len() == 0 {
        lemma_split_extend(Seq::empty(), dir, '/');
        assert(Seq::<char>::empty() + dir =~= dir);
        assert(split(dir, '/') =~= front);
        lemma_split_slash(dir, x);
        assert(split(path, '/') =~= front + split(x, '/'));
    } else {
        let init = x.drop_last();
        lemma_split_in_directory(dir, init);
        lemma_split_parts(init, '/');
        assert(path.drop_last() =~= dir + "/"@ + init);
        let before = split(init, '/');
        assert((front + before).drop_last() =~= front + before.drop_last());
        assert((front + before).last() == before.last());
        assert(split(path, '/') =~= front + split(x, '/'));
    }
}

/// Leaving out parts in front that lead nowhere keeps the steps.
proof fn lemma_front_left_out(parts: Seq<Seq<char>>)
    requires
        forall|i: int| 0 <= i < parts.len() ==> !(#[trigger] parts[i]).contains('/'),
    ensures
        steps(from_first_step(parts)) == steps(parts),
        forall|i: int|
            0 <= i < from_first_step(parts).len() ==> !(#[trigger] from_first_step(
                parts,
            )[i]).contains('/'),
    decreases parts.len(),
{
    if parts.len() > 0 && !is_step(parts[0]) {
        let rest = parts.skip(1);
        assert forall|i: int| 0 <= i < rest.len() implies !(#[trigger] rest[i]).contains('/') by {
            assert(rest[i] == parts[i + 1]);
        }
        lemma_front_left_out(rest);
        lemma_steps_behind(parts[0], rest);
        assert(seq![parts[0]] + rest =~= parts);
    }
}

/// Leaving out parts at the end that lead nowhere keeps the steps.
proof fn lemma_end_left_out(parts: Seq<Seq<char>>)
    requires
        forall|i: int| 0 <= i < parts.len() ==> !(#[trigger] parts[i]).contains('/'),
    ensures
        steps(to_last_step(parts)) == steps(parts),
        forall|i: int|
            0 <= i < to_last_step(parts).len() ==> !(#[trigger] to_last_step(parts)[i]).contains(
                '/',
            ),
    decreases parts.len(),
{
    if parts.len() > 0 && !is_step(parts.last()) {
        let init = parts.drop_last();
        assert forall|i: int| 0 <= i < init.len() implies !(#[trigger] init[i]).contains('/') by {
            assert(init[i] == parts[i]);
        }
        lemma_end_left_out(init);
    }
}

/// What is left of an absolute path put behind a directory is the same for every directory.
pub proof fn law_rest_does_not_depend_on_directory(p: Seq<char>, a: Seq<char>, b: Seq<char>)
    requires
        is_absolute(p),
        !a.contains('/'),
        !b.contains('/'),
    ensures
        path_within(a + p, a) == path_within(b + p, b),
{
    reveal_strlit("/");
    let below = p.skip(1);
    assert(a + p =~= a + "/"@ + below);
    assert(b + p =~= b + "/"@ + below);
    lemma_split_in_directory(a, below);
    lemma_split_in_directory(b, below);
    assert((seq![a] + split(below, '/')).skip(1) =~= split(below, '/'));
    assert((seq![b] + split(below, '/')).skip(1) =~= split(below, '/'));
}

/// An absolute path put behind a directory is found again: what is left of it behind that
/// directory leads, from the root, to the same file.
pub proof fn law_path_in_directory_leads_back(p: Seq<char>, dir: Seq<char>)
    requires
        is_absolute(p),
        !dir.contains('/'),
    ensures
        path_within(dir + p, dir) is Some,
        same_path(path_join("/"@, path_within(dir + p, dir)->0), p),
{
    reveal_strlit("/");
    let below = p.skip(1);
    let parts = split(below, '/');
    assert("/"@ + below =~= p);
    assert(dir + p =~= dir + "/"@ + below);
    lemma_split_in_directory(dir, below);
    lemma_split_parts(below, '/');
    assert((seq![dir] + parts).skip(1) =~= parts);
    lemma_front_left_out(parts);
    lemma_end_left_out(from_first_step(parts));
    law_rest_of_path_is_relative(dir + p, dir);
    let kept = to_last_step(from_first_step(parts));
    let rest = joined(kept, "/"@);
    assert(path_within(dir + p, dir) == Some(rest));
    assert(steps(split(rest, '/')) == steps(kept)) by {
        if kept.len() > 0 {
            lemma_split_joined(kept);
        } else {
            assert(split(rest, '/') =~= seq![Seq::<char>::empty()] + kept);
            lemma_steps_behind(Seq::empty(), kept);
        }
    }
    lemma_split_rooted(rest);
    lemma_split_rooted(below);
    lemma_steps_behind(Seq::empty(), split(rest, '/'));
    lemma_steps_behind(Seq::empty(), parts);
    assert(path_join("/"@, rest) =~= "/"@ + rest);
}

/// The parts of the path that are neither empty nor a single dot.
pub open spec fn real_parts(p: Seq<char>) -> Seq<Seq<char>> {
    split(p, '/').filter(|part: Seq<char>| part.len() > 0 && part != seq!['.'])
}

/// How the path begins: at the root, at the current directory, or at neither.
pub open spec fn beginning(p: Seq<char>) -> Option<char> {
    if p.len() > 0 && p[0] == '/' {
        Some('/')
    } else if p.len() > 0 && p[0] == '.' && (p.len() > 1 ==> p[1] == '/') {
        Some('.')
    } else {
        None
    }
}

/// The parts that lead somewhere are the real ones.
proof fn lemma_steps_filter(parts: Seq<Seq<char>>)
    ensures
        steps(parts) == parts.filter(|part: Seq<char>| part.len() > 0 && part != seq!['.']),
    decreases parts.len(),
{
    reveal(Seq::filter);
    reveal_strlit(".");
    assert("."@ =~= seq!['.']);
    if parts.len() > 0 {
        lemma_steps_filter(parts.drop_last());
    }
}

/// The first part of a path that does not start with a slash is what stands before its first
/// slash.
proof fn lemma_first_part(p: Seq<char>)
    ensures
        split(p, '/').len() > 0,
        split(p, '/')[0].len() <= p.len(),
        forall|i: int| 0 <= i < split(p, '/')[0].len() ==> #[trigger] split(p, '/')[0][i] == p[i],
        split(p, '/')[0].len() < p.len() ==> p[split(p, '/')[0].len() as int] == '/',
    decreases p.len(),
{
    lemma_split_parts(p, '/');
    if p.len() > 0 {
        let init = p.drop_last();
        lemma_first_part(init);
        lemma_split_parts(init, '/');
        let before = split(init, '/');
        if p.last() == '/' {
            assert(split(p, '/')[0] == before[0]);
        } else if before.len() > 1 {
            assert(split(p, '/')[0] == before[0]);
            assert(before[0].len() < init.len()) by {
                if before[0].len() == init.len() {
                    lemma_one_part(init);
                }
            }
        } else {
            assert(before.last() == before[0]);
            assert(split(p, '/')[0] == before[0].push(p.last()));
            assert(before[0].len() == init.len()) by {
                if before[0].len() < init.len() {
                    lemma_one_part(init);
                }
            }
        }
    }
}

/// A path has one part if and only if it holds no slash, and then it is that part.
proof fn lemma_one_part(p: Seq<char>)
    ensures
        split(p, '/').len() > 0,
        split(p, '/').len() == 1 <==> split(p, '/')[0].len() == p.len(),
        split(p, '/')[0].len() <= p.len(),
    decreases p.len(),
{
    lemma_split_parts(p, '/');
    if p.len() > 0 {
        let init = p.drop_last();
        lemma_one_part(init);
        lemma_split_parts(init, '/');
        let before = split(init, '/');
        if before.len() == 1 {
            assert(before.last() == before[0]);
        }
    }
}

/// Paths are equal if and only if they begin alike and have the same real parts in the same
/// order: empty parts and single dots elsewhere do not matter, and everything else does.
pub proof fn law_equal_paths_have_the_same_parts(p: Seq<char>, q: Seq<char>)
    ensures
        same_path(p, q) <==> beginning(p) == beginning(q) && real_parts(p) == real_parts(q),
{
    lemma_components(p);
    lemma_components(q);
    lemma_all_steps(split(p, '/'));
    lemma_all_steps(split(q, '/'));
    reveal_strlit("/");
    reveal_strlit(".");
    lemma_split_parts(p, '/');
    lemma_split_parts(q, '/');
    let cp = components(p);
    let cq = components(q);
    if same_path(p, q) {
        lemma_beginning_is_told(p, q);
        assert(real_parts(p) =~= cp.skip(cp.len() - real_parts(p).len()));
        assert(real_parts(q) =~= cq.skip(cq.len() - real_parts(q).len()));
    }
}

/// How a path begins shows in its components.
proof fn lemma_beginning_is_told(p: Seq<char>, q: Seq<char>)
    requires
        components(p) == components(q),
    ensures
        beginning(p) == beginning(q),
{
    lemma_components(p);
    lemma_components(q);
    lemma_real_first(p);
    lemma_real_first(q);
    reveal_strlit("/");
    reveal_strlit(".");
    let cp = components(p);
    let cq = components(q);
    if beginning(p) is Some {
        assert(cp[0].len() == 1 && cp[0][0] == beginning(p)->0);
        if beginning(q) is None {
            assert(cq[0] == real_parts(q)[0]);
        } else {
            assert(cq[0][0] == beginning(q)->0);
        }
    } else if beginning(q) is Some {
        assert(cq[0].len() == 1 && cq[0][0] == beginning(q)->0);
        assert(cp[0] == real_parts(p)[0]);
    }
}

/// The first real part is neither the root nor the current directory.
proof fn lemma_real_first(p: Seq<char>)
    ensures
        real_parts(p).len() > 0 ==> real_parts(p)[0].len() > 0 && !real_parts(p)[0].contains('/')
            && real_parts(p)[0] != seq!['.'],
{
    let parts = split(p, '/');
    lemma_steps_filter(parts);
    lemma_split_parts(p, '/');
    lemma_all_steps(parts);
    lemma_steps_are_parts(parts);
    reveal_strlit(".");
    assert("."@ =~= seq!['.']);
    if real_parts(p).len() > 0 {
        assert(is_step(steps(parts)[0]));
        assert(parts.contains(steps(parts)[0]));
        let i = choose|i: int| 0 <= i < parts.len() && parts[i] == steps(parts)[0];
        assert(!parts[i].contains('/'));
    }
}

/// Steps are parts.
proof fn lemma_steps_are_parts(parts: Seq<Seq<char>>)
    ensures
        forall|i: int| 0 <= i < steps(parts).len() ==> parts.contains(#[trigger] steps(parts)[i]),
    decreases parts.len(),
{
    if parts.len() > 0 {
        let init = parts.drop_last();
        lemma_steps_are_parts(init);
        assert forall|i: int| 0 <= i < steps(parts).len() implies parts.contains(
            #[trigger] steps(parts)[i],
        ) by {
            if i < steps(init).len() {
                assert(init.contains(steps(init)[i]));
                let j = choose|j: int| 0 <= j < init.len() && init[j] == steps(init)[i];
                assert(parts[j] == steps(parts)[i]);
            } else {
                assert(parts[parts.len() - 1] == steps(parts)[i]);
            }
        }
    }
}

/// The components of a path: how it begins, and its real parts.
proof fn lemma_components(p: Seq<char>)
    ensures
        components(p) == match beginning(p) {
            Some(c) => seq![seq![c]],
            None => Seq::empty(),
        } + real_parts(p),
{
    reveal_strlit("/");
    reveal_strlit(".");
    assert("/"@ =~= seq!['/']);
    assert("."@ =~= seq!['.']);
    lemma_steps_filter(split(p, '/'));
    lemma_first_part(p);
    lemma_split_parts(p, '/');
    let first = split(p, '/')[0];
    if !is_absolute(p) {
        if first == "."@ {
            assert(first[0] == p[0]);
        }
        if beginning(p) == Some('.') {
            if first.len() == 0 {
                assert(p[0] == '/');
            }
            if first.len() > 1 {
                assert(!first.contains('/'));
                assert(first[1] == p[1]);
                assert(first.contains(first[1]));
            }
            assert(first[0] == p[0]);
            assert(first =~= seq!['.']);
        }
    }
}

/// Joining paths: an absolute path stays as it is, and one slash, which the base may already
/// bring, comes before another one, unless the base is empty.
pub proof fn law_joining_paths(base: Seq<char>, p: Seq<char>)
    ensures
        p.len() > 0 && p[0] == '/' ==> path_join(base, p) == p,
        !(p.len() > 0 && p[0] == '/') && (base.len() == 0 || base.last() == '/') ==> path_join(
            base,
            p,
        ) == base + p,
        !(p.len() > 0 && p[0] == '/') && base.len() > 0 && base.last() != '/' ==> path_join(
            base,
            p,
        ) == base.push('/') + p,
{
    reveal_strlit("/");
    assert(base + "/"@ =~= base.push('/'));
}

/// No part leads anywhere.
pub open spec fn all_idle(parts: Seq<Seq<char>>) -> bool {
    forall|i: int|
        0 <= i < parts.len() ==> (#[trigger] parts[i]).len() == 0 || parts[i] == seq!['.']
}

/// The parts between those at both ends that lead nowhere.
pub open spec fn is_core(
    core: Seq<Seq<char>>,
    parts: Seq<Seq<char>>,
    front: Seq<Seq<char>>,
    back: Seq<Seq<char>>,
) -> bool {
    &&& front + core + back == parts
    &&& all_idle(front)
    &&& all_idle(back)
    &&& core.len() > 0 ==> core[0].len() > 0 && core[0] != seq!['.'] && core.last().len() > 0
        && core.last() != seq!['.']
}

/// Leaving out parts in front leaves the rest as it is.
proof fn lemma_front_parts(parts: Seq<Seq<char>>) -> (front: Seq<Seq<char>>)
    ensures
        front + from_first_step(parts) == parts,
        all_idle(front),
        from_first_step(parts).len() > 0 ==> is_step(from_first_step(parts)[0]),
    decreases parts.len(),
{
    reveal_strlit(".");
    assert("."@ =~= seq!['.']);
    if parts.len() > 0 && !is_step(parts[0]) {
        let rest = lemma_front_parts(parts.skip(1));
        let front = seq![parts[0]] + rest;
        assert(front + from_first_step(parts) =~= parts) by {
            assert(rest + from_first_step(parts.skip(1)) == parts.skip(1));
            assert(seq![parts[0]] + parts.skip(1) =~= parts);
            assert(front + from_first_step(parts.skip(1)) =~= seq![parts[0]] + (rest
                + from_first_step(parts.skip(1))));
        }
        assert forall|i: int| 0 <= i < front.len() implies (#[trigger] front[i]).len() == 0
            || front[i] == seq!['.'] by {
            if i > 0 {
                assert(front[i] == rest[i - 1]);
            }
        }
        front
    } else {
        assert(Seq::<Seq<char>>::empty() + parts =~= parts);
        Seq::empty()
    }
}

/// Leaving out parts at the end leaves the rest as it is.
proof fn lemma_back_parts(parts: Seq<Seq<char>>) -> (back: Seq<Seq<char>>)
    ensures
        to_last_step(parts) + back == parts,
        all_idle(back),
        to_last_step(parts).len() > 0 ==> is_step(to_last_step(parts).last())
            && to_last_step(parts)[0] == parts[0],
    decreases parts.len(),
{
    reveal_strlit(".");
    assert("."@ =~= seq!['.']);
    if parts.len() > 0 && !is_step(parts.last()) {
        let init = parts.drop_last();
        let rest = lemma_back_parts(init);
        let back = rest.push(parts.last());
        assert(to_last_step(parts) + back =~= (to_last_step(init) + rest).push(parts.last()));
        assert(init.push(parts.last()) =~= parts);
        assert forall|i: int| 0 <= i < back.len() implies (#[trigger] back[i]).len() == 0
            || back[i] == seq!['.'] by {
            if i < rest.len() {
                assert(back[i] == rest[i]);
            }
        }
        back
    } else {
        assert(parts + Seq::<Seq<char>>::empty() =~= parts);
        Seq::empty()
    }
}

/// A path lies in a directory if and only if its first part is that directory, and what is left
/// of it are the parts behind, without those at both ends that lead nowhere.
pub proof fn law_what_is_left_in_a_directory(p: Seq<char>, dir: Seq<char>)
    ensures
        path_within(p, dir) is Some <==> split(p, '/')[0] == dir,
        path_within(p, dir) matches Some(rest) ==> exists|
            core: Seq<Seq<char>>,
            front: Seq<Seq<char>>,
            back: Seq<Seq<char>>,
        | #[trigger]
            is_core(core, split(p, '/').skip(1), front, back) && rest == joined(core, seq!['/']),
{
    if split(p, '/')[0] == dir {
        reveal_strlit("/");
        reveal_strlit(".");
        assert("/"@ =~= seq!['/']);
        assert("."@ =~= seq!['.']);
        let parts = split(p, '/').skip(1);
        let middle = from_first_step(parts);
        let front = lemma_front_parts(parts);
        let back = lemma_back_parts(middle);
        let core = to_last_step(middle);
        assert(front + core + back =~= parts) by {
            assert(front + core + back =~= front + (core + back));
        }
        assert(is_core(core, parts, front, back));
    }
}

/// The name of a file is the last real part of its path, unless that is the parent directory.
pub proof fn law_file_name_is_the_last_part(p: Seq<char>)
    ensures
        file_name(p) == (if real_parts(p).len() > 0 && real_parts(p).last() != seq!['.', '.'] {
            Some(real_parts(p).last())
        } else {
            None
        }),
{
    reveal_strlit("..");
    assert(".."@ =~= seq!['.', '.']);
    lemma_steps_filter(split(p, '/'));
}

/// The text followed by `.patch`.
pub open spec fn with_extension(stem: Seq<char>) -> Seq<char> {
    stem + seq!['.', 'p', 'a', 't', 'c', 'h']
}

/// A path has the extension `patch` if and only if the name of its file is something followed by
/// `.patch`.
pub proof fn law_patch_extension(p: Seq<char>)
    ensures
        is_patch_path(p) <==> file_name(p) is Some && exists|stem: Seq<char>|
            stem.len() > 0 && #[trigger] with_extension(stem) == file_name(p)->0,
{
    reveal_strlit(".patch");
    let suffix = seq!['.', 'p', 'a', 't', 'c', 'h'];
    assert(".patch"@ =~= suffix);
    match file_name(p) {
        Some(name) => {
            if is_patch_path(p) {
                let stem = name.take(name.len() - 6);
                assert(stem + name.subrange(name.len() - 6, name.len() as int) =~= name);
                assert(stem.len() > 0 && with_extension(stem) == name);
            }
            if exists|stem: Seq<char>| stem.len() > 0 && #[trigger] with_extension(stem) == name {
                let stem = choose|stem: Seq<char>|
                    stem.len() > 0 && #[trigger] with_extension(stem) == name;
                assert(name.subrange(name.len() - 6, name.len() as int) =~= suffix);
            }
        },
        None => {},
    }
}

/// The file that a patch file is for by its name: the name without `.patch`, with a slash for
/// each dash, from the root.
pub proof fn law_target_by_name(p: Seq<char>, stem: Seq<char>)
    requires
        file_name(p) == Some(with_extension(stem)),
    ensures
        names_a_target(p),
        conventional_target(p) == path_join(
            seq!['/'],
            Seq::new(
                stem.len(),
                |i: int|
                    if stem[i] == '-' {
                        '/'
                    } else {
                        stem[i]
                    },
            ),
        ),
{
    let name = with_extension(stem);
    lemma_dashes(p, name);
    reveal_strlit(".patch");
    reveal_strlit("/");
    assert("/"@ =~= seq!['/']);
    let s = dashes_as_slashes(p);
    assert(s.subrange(s.len() - 6, s.len() as int) =~= ".patch"@);
    assert(s.take(s.len() - 6) =~= Seq::new(
        stem.len(),
        |i: int|
            if stem[i] == '-' {
                '/'
            } else {
                stem[i]
            },
    ));
}

/// Only a name that ends in `.patch` tells which file a patch file is for.
pub proof fn law_names_without_a_target(p: Seq<char>)
    requires
        names_a_target(p),
    ensures
        file_name(p) is Some,
        exists|stem: Seq<char>| #[trigger] with_extension(stem) == file_name(p)->0,
{
    let name = file_name(p)->0;
    lemma_dashes(p, name);
    reveal_strlit(".patch");
    let suffix = seq!['.', 'p', 'a', 't', 'c', 'h'];
    let s = dashes_as_slashes(p);
    let at = s.len() - 6;
    let stem = name.take(at);
    assert forall|i: int| 0 <= i < 6 implies name[at + i] == suffix[i] by {
        assert(s.subrange(at, s.len() as int)[i] == ".patch"@[i]);
        assert(s[at + i] == suffix[i]);
        assert(s[at + i] == swapped(name[at + i], '-', '/'));
    }
    assert(with_extension(stem) =~= name);
}

} // verus!
