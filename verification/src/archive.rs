//! Reading the file that a package ships out of the package's archive.
use vstd::prelude::*;
#[allow(unused_imports)]
use vstd::utf8::{decode_utf8, valid_utf8};

#[allow(unused_imports)]
use crate::path::{is_absolute, path_join};
use crate::path::join_path;
#[allow(unused_imports)]
use crate::text::texts;
use crate::text::{from_chars, to_chars};

verus! {

/// Where the package manager keeps the archive of a package.
pub open spec fn archive_path(
    name: Seq<char>,
    version: Seq<char>,
    arch: Seq<char>,
) -> Seq<char> {
    path_join("/var/cache/pacman/pkg"@, name + "-"@ + version + "-"@ + arch + ".pkg.tar.zst"@)
}

/// Where the package manager keeps the archive of a package.
pub fn package_archive(name: &str, version: &str, arch: &str) -> (r: String)
    ensures
        r@ == archive_path(name@, version@, arch@),
{
    let mut file = name.to_owned();
    file.append("-");
    file.append(version);
    file.append("-");
    file.append(arch);
    file.append(".pkg.tar.zst");
    join_path("/var/cache/pacman/pkg", file.as_str())
}

/// The name of the file at an absolute path in an archive or a file list: the path below the
/// root.
pub fn member_name(path: &str) -> (r: String)
    requires
        is_absolute(path@),
    ensures
        r@ == path@.skip(1),
{
    let chars = to_chars(path);
    assert(chars@.subrange(1, chars@.len() as int) =~= path@.skip(1));
    from_chars(&chars, 1, chars.len())
}

/// The arguments with which `tar` writes the file at an absolute path, as the package ships it,
/// to its output.
pub fn extraction_args(name: &str, version: &str, arch: &str, path: &str) -> (r: Vec<String>)
    requires
        is_absolute(path@),
    ensures
        texts(r@) == seq!["-xOf"@, archive_path(name@, version@, arch@), path@.skip(1)],
{
    let mut args: Vec<String> = Vec::new();
    args.push("-xOf".to_owned());
    args.push(package_archive(name, version, arch));
    args.push(member_name(path));
    assert(texts(args@) =~= seq![
        "-xOf"@,
        archive_path(name@, version@, arch@),
        path@.skip(1),
    ]);
    args
}

/// Why there is no original text.
#[derive(Debug, PartialEq, Eq, Structural)]
pub enum ArchiveError {
    /// `tar` failed.
    TarFailed,
    /// The file is not text in UTF-8.
    NotUtf8,
}

/// The string that the bytes encode, as `String::from_utf8` decodes them; `None` where they are
/// not UTF-8.
#[verifier::external_body]
fn string_from_utf8(bytes: Vec<u8>) -> (r: Option<String>)
    ensures
        match r {
            Some(s) => valid_utf8(bytes@) && s@ == decode_utf8(bytes@),
            None => !valid_utf8(bytes@),
        },
{
    String::from_utf8(bytes).ok()
}

/// The original text, from whether `tar` succeeded and what it wrote.
pub fn original_text(succeeded: bool, output: Vec<u8>) -> (r: Result<String, ArchiveError>)
    ensures
        match r {
            Ok(s) => succeeded && valid_utf8(output@) && s@ == decode_utf8(output@),
            Err(ArchiveError::TarFailed) => !succeeded,
            Err(ArchiveError::NotUtf8) => succeeded && !valid_utf8(output@),
        },
{
    if !succeeded {
        return Err(ArchiveError::TarFailed);
    }
    match string_from_utf8(output) {
        Some(s) => Ok(s),
        None => Err(ArchiveError::NotUtf8),
    }
}

/// The archive of a package lies in the cache of the package manager, under the name of the
/// package, its version and its architecture. A name that starts with a slash is a path of its
/// own.
pub proof fn law_archive_path(name: Seq<char>, version: Seq<char>, arch: Seq<char>)
    ensures
        ({
            let file = name + seq!['-'] + version + seq!['-'] + arch + ".pkg.tar.zst"@;
            archive_path(name, version, arch) == if name.len() > 0 && name[0] == '/' {
                file
            } else {
                "/var/cache/pacman/pkg/"@ + file
            }
        }),
{
    reveal_strlit("/var/cache/pacman/pkg");
    reveal_strlit("/var/cache/pacman/pkg/");
    reveal_strlit("-");
    reveal_strlit("/");
    let file = name + seq!['-'] + version + seq!['-'] + arch + ".pkg.tar.zst"@;
    assert("-"@ =~= seq!['-']);
    assert("/var/cache/pacman/pkg"@ + "/"@ =~= "/var/cache/pacman/pkg/"@);
    assert(file[0] == if name.len() > 0 {
        name[0]
    } else {
        '-'
    });
}

} // verus!
