//! The files that packages keep a backup of.
use vstd::prelude::*;

use crate::path::join_path;
#[allow(unused_imports)]
use crate::path::path_join;

verus! {

/// A backup entry of a package: the file's path below the root, and the checksum of the file
/// that the package ships.
#[derive(Debug)]
pub struct BackupEntry {
    pub name: String,
    pub hash: String,
}

/// An installed package and its backup entries.
#[derive(Debug)]
pub struct PackageBackups {
    pub name: String,
    pub backups: Vec<BackupEntry>,
}

/// A file that a package keeps a backup of.
#[derive(Debug)]
pub struct BackupFile {
    /// The package that the file belongs to.
    pub package: String,
    /// Where the file lies.
    pub path: String,
    /// The checksum of the file that the package ships.
    pub original_md5: String,
}

/// What a `BackupFile` holds.
pub struct BackupFileView {
    pub package: Seq<char>,
    pub path: Seq<char>,
    pub original_md5: Seq<char>,
}

impl View for BackupFile {
    type V = BackupFileView;

    open spec fn view(&self) -> BackupFileView {
        BackupFileView {
            package: self.package@,
            path: self.path@,
            original_md5: self.original_md5@,
        }
    }
}

/// What a list of backup files holds.
pub open spec fn backup_views(files: Seq<BackupFile>) -> Seq<BackupFileView> {
    Seq::new(files.len(), |i: int| files[i]@)
}

/// The backup files of one package, in the order of its entries.
pub open spec fn backups_of(package: PackageBackups) -> Seq<BackupFileView> {
    Seq::new(
        package.backups@.len(),
        |i: int|
            BackupFileView {
                package: package.name@,
                path: path_join("/"@, package.backups@[i].name@),
                original_md5: package.backups@[i].hash@,
            },
    )
}

/// The backup files of the packages, one package after the other.
pub open spec fn all_backups(packages: Seq<PackageBackups>) -> Seq<BackupFileView>
    decreases packages.len(),
{
    if packages.len() == 0 {
        Seq::empty()
    } else {
        all_backups(packages.drop_last()) + backups_of(packages.last())
    }
}

/// The backup files of all packages: package by package, in the order of their entries.
pub fn iter_backup_files(packages: &Vec<PackageBackups>) -> (r: Vec<BackupFile>)
    ensures
        backup_views(r@) == all_backups(packages@),
{
    let mut out: Vec<BackupFile> = Vec::new();
    let mut k: usize = 0;
    assert(backup_views(out@) =~= all_backups(packages@.take(0)));
    while k < packages.len()
        invariant
            k <= packages@.len(),
            backup_views(out@) == all_backups(packages@.take(k as int)),
        decreases packages.len() - k,
    {
        let package = &packages[k];
        let ghost before = all_backups(packages@.take(k as int));
        let ghost own = backups_of(*package);
        let mut i: usize = 0;
        assert(before + own.take(0) =~= before);
        while i < package.backups.len()
            invariant
                i <= package.backups@.len(),
                own == backups_of(*package),
                backup_views(out@) == before + own.take(i as int),
            decreases package.backups.len() - i,
        {
            let entry = &package.backups[i];
            let file = BackupFile {
                package: package.name.clone(),
                path: join_path("/", entry.name.as_str()),
                original_md5: entry.hash.clone(),
            };
            let ghost so_far = backup_views(out@);
            assert(file@ == own[i as int]);
            let ghost added = file@;
            out.push(file);
            assert(backup_views(out@) =~= so_far.push(added));
            assert(before + own.take(i + 1) =~= (before + own.take(i as int)).push(
                own[i as int],
            ));
            i = i + 1;
        }
        assert(own.take(i as int) =~= own);
        assert(packages@.take(k + 1).drop_last() =~= packages@.take(k as int));
        k = k + 1;
    }
    assert(packages@.take(k as int) =~= packages@);
    out
}

/// The backup files are those of the packages one after the other, each with the name of its
/// package, the path of its entry below the root, and the checksum of its entry.
pub proof fn law_backup_files(packages: Seq<PackageBackups>)
    ensures
        all_backups(packages) == packages.map_values(
            |package: PackageBackups|
                package.backups@.map_values(
                    |entry: BackupEntry|
                        BackupFileView {
                            package: package.name@,
                            path: path_join(seq!['/'], entry.name@),
                            original_md5: entry.hash@,
                        },
                ),
        ).flatten(),
    decreases packages.len(),
{
    reveal_strlit("/");
    assert("/"@ =~= seq!['/']);
    let files = |package: PackageBackups|
        package.backups@.map_values(
            |entry: BackupEntry|
                BackupFileView {
                    package: package.name@,
                    path: path_join(seq!['/'], entry.name@),
                    original_md5: entry.hash@,
                },
        );
    if packages.len() == 0 {
        assert(packages.map_values(files) =~= Seq::<Seq<BackupFileView>>::empty());
    } else {
        let init = packages.drop_last();
        law_backup_files(init);
        assert(backups_of(packages.last()) =~= files(packages.last()));
        assert(packages.map_values(files) =~= init.map_values(files).push(files(packages.last())));
        init.map_values(files).lemma_flatten_push(files(packages.last()));
    }
}

/// What a backup file holds is what its fields hold.
pub proof fn law_view_keeps_the_backup_files(files: Seq<BackupFile>)
    ensures
        backup_views(files).len() == files.len(),
        forall|i: int|
            0 <= i < files.len() ==> {
                let view = #[trigger] backup_views(files)[i];
                &&& view.package == files[i].package@
                &&& view.path == files[i].path@
                &&& view.original_md5 == files[i].original_md5@
            },
{
}

} // verus!
