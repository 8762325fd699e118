//! Patches for the configuration files of packages: reading patch files, applying them to the
//! files that they are for, and reporting on files that were changed.
pub mod applying;
pub mod archive;
pub mod backup;
pub mod command;
pub mod laws;
pub mod listing;
pub mod patch;
pub mod patch_file;
pub mod path;
pub mod report;
pub mod shape;
pub mod text;

pub use backup::{iter_backup_files, BackupEntry, BackupFile, PackageBackups};
pub use command::{Args, Commands};
pub use patch::{Hunk, HunkLine, LineRange, Patch, PatchError};
pub use patch_file::{iter_patch_files, DirEntry, PatchFile, ReadError};
