//! The commands of the program, and what they decide and print.
use vstd::prelude::*;
#[allow(unused_imports)]
use vstd::utf8::{decode_utf8, valid_utf8};

use crate::text::replace;
#[allow(unused_imports)]
use crate::text::{
    brings_nothing_back, law_replaced_text_is_gone, replaced, stands, texts,
};

verus! {

/// Where patch files lie unless the caller says otherwise.
pub const DEFAULT_PATCH_PATH: &'static str = "/usr/share/archpatch/patches";

/// What the caller asks for.
#[derive(Debug)]
pub struct Args {
    /// Where patch files lie.
    pub patch_path: String,
    pub cmds: Commands,
}

/// The commands.
#[derive(Debug)]
pub enum Commands {
    /// Collect and print the status of the installation.
    Report { skip_pacreport: bool },
    /// Given a backuped file, produce the diff to apply to the original to get the current file.
    Diff { target: String, no_context: bool },
    /// Apply all patches.
    Apply,
}

/// The first package that owns the file, where each answer tells of one package whether it does.
pub fn first_owner(owns: &Vec<bool>) -> (r: Option<usize>)
    ensures
        match r {
            Some(i) => i < owns@.len() && owns@[i as int] && forall|j: int|
                0 <= j < i ==> !owns@[j],
            None => forall|j: int| 0 <= j < owns@.len() ==> !owns@[j],
        },
{
    let mut i: usize = 0;
    while i < owns.len()
        invariant
            i <= owns@.len(),
            forall|j: int| 0 <= j < i ==> !owns@[j],
        decreases owns.len() - i,
    {
        if owns[i] {
            return Some(i);
        }
        i = i + 1;
    }
    None
}

/// The option that asks `git` for the usual context lines, or for none.
pub open spec fn context_option(no_context: bool) -> Seq<char> {
    if no_context {
        "--unified=0"@
    } else {
        "--unified"@
    }
}

/// The arguments with which `git` compares two files, without the two files themselves.
pub fn diff_args(no_context: bool) -> (r: Vec<String>)
    ensures
        texts(r@) == seq![
            "diff"@,
            "--patch"@,
            context_option(no_context),
            "--no-index"@,
            "--color=always"@,
        ],
{
    let mut args: Vec<String> = Vec::new();
    args.push("diff".to_owned());
    args.push("--patch".to_owned());
    args.push(
        if no_context {
            "--unified=0".to_owned()
        } else {
            "--unified".to_owned()
        },
    );
    args.push("--no-index".to_owned());
    args.push("--color=always".to_owned());
    assert(texts(args@) =~= seq![
        "diff"@,
        "--patch"@,
        context_option(no_context),
        "--no-index"@,
        "--color=always"@,
    ]);
    args
}

/// The arguments with which `git` tells how the current file differs from the original one: the
/// original comes first.
pub fn comparison_args(no_context: bool, original: &str, current: &str) -> (r: Vec<String>)
    ensures
        texts(r@) == seq![
            "diff"@,
            "--patch"@,
            context_option(no_context),
            "--no-index"@,
            "--color=always"@,
            original@,
            current@,
        ],
{
    let mut args = diff_args(no_context);
    let ghost options = texts(args@);
    args.push(original.to_owned());
    args.push(current.to_owned());
    assert(texts(args@) =~= options.push(original@).push(current@));
    assert(texts(args@) =~= seq![
        "diff"@,
        "--patch"@,
        context_option(no_context),
        "--no-index"@,
        "--color=always"@,
        original@,
        current@,
    ]);
    args
}

/// The text that `String::from_utf8_lossy` makes of bytes.
pub uninterp spec fn lossy_text(bytes: Seq<u8>) -> Seq<char>;

/// The text that the bytes encode, as `String::from_utf8_lossy` decodes them, with replacement
/// characters for what is not UTF-8. It is a function of the bytes, and bytes that are UTF-8
/// are decoded as they are.
#[verifier::external_body]
fn string_from_utf8_lossy(bytes: &Vec<u8>) -> (r: String)
    ensures
        r@ == lossy_text(bytes@),
        valid_utf8(bytes@) ==> r@ == decode_utf8(bytes@),
{
    String::from_utf8_lossy(bytes).into_owned()
}

/// What is printed of a comparison: that the files are the same, or the difference, in which the
/// file that the original was written to goes by the name of the current file.
pub fn diff_text(unchanged: bool, difference: &str, original: &str, current: &str) -> (r: String)
    requires
        original@.len() > 0,
    ensures
        r@ == if unchanged {
            "Target is unchanged"@
        } else {
            replaced(difference@, original@, current@)
        },
{
    if unchanged {
        "Target is unchanged".to_owned()
    } else {
        replace(difference, original, current)
    }
}

/// What is printed of a comparison, from the bytes that `git` wrote.
pub fn printed_difference(
    unchanged: bool,
    output: &Vec<u8>,
    original: &str,
    current: &str,
) -> (r: String)
    requires
        original@.len() > 0,
    ensures
        r@ == if unchanged {
            "Target is unchanged"@
        } else {
            replaced(lossy_text(output@), original@, current@)
        },
        !unchanged && valid_utf8(output@) ==> r@ == replaced(
            decode_utf8(output@),
            original@,
            current@,
        ),
{
    let difference = string_from_utf8_lossy(output);
    diff_text(unchanged, difference.as_str(), original, current)
}

/// Without context, `git` is asked for no lines of it, and else for as many as it usually shows.
pub proof fn law_context_options()
    ensures
        context_option(true) == "--unified=0"@,
        context_option(false) == "--unified"@,
{
}

/// In the printed difference the name of the file that the original was written to stands
/// nowhere, on whatever line it stood. Left out are names of the current file that bring it back.
pub proof fn law_original_goes_by_the_current_name(
    difference: Seq<char>,
    original: Seq<char>,
    current: Seq<char>,
)
    requires
        original.len() > 0,
        brings_nothing_back(original, current),
    ensures
        forall|i: int| !#[trigger] stands(replaced(difference, original, current), original, i),
{
    law_replaced_text_is_gone(difference, original, current);
}

} // verus!
