//! Decisions of the file and path helpers, apart from the file system.

use vstd::prelude::*;

verus! {

/// Where the built-in extensions are looked for.
pub enum BuiltinDir {
    /// `extensions/builtin` in the resource directory of a packaged build.
    Resource,
    /// `extensions/builtin` in the working directory.
    WorkingDir,
    /// `src-tauri/extensions/builtin` in the working directory.
    ProjectDir,
}

/// Picks the built-in extension folder: the resource folder when it exists,
/// else the first existing development folder, else the resource folder when
/// there is a resource directory at all, else the working-directory folder.
/// `resource_exists` is `None` when the resource directory is unknown.
pub fn choose_builtin_dir(
    resource_exists: Option<bool>,
    working_exists: bool,
    project_exists: bool,
) -> (d: BuiltinDir)
    ensures
        resource_exists == Some(true) ==> d is Resource,
        resource_exists != Some(true) && working_exists ==> d is WorkingDir,
        resource_exists != Some(true) && !working_exists && project_exists ==> d is ProjectDir,
        resource_exists == Some(false) && !working_exists && !project_exists ==> d is Resource,
        resource_exists is None && !working_exists && !project_exists ==> d is WorkingDir,
{
    if resource_exists == Some(true) {
        BuiltinDir::Resource
    } else if working_exists {
        BuiltinDir::WorkingDir
    } else if project_exists {
        BuiltinDir::ProjectDir
    } else if resource_exists.is_some() {
        BuiltinDir::Resource
    } else {
        BuiltinDir::WorkingDir
    }
}

/// What copying a directory tree does with one entry.
pub enum CopyStep {
    /// Copy the sub-directory recursively.
    Descend,
    /// Copy the file.
    CopyFile,
    /// Leave the entry out (symbolic links, for safety, and anything else).
    Skip,
}

/// Directories are copied recursively, files are copied, symbolic links and
/// other entries are skipped.
pub fn copy_step(is_dir: bool, is_symlink: bool, is_file: bool) -> (s: CopyStep)
    ensures
        is_dir ==> s is Descend,
        !is_dir && is_symlink ==> s is Skip,
        !is_dir && !is_symlink && is_file ==> s is CopyFile,
        !is_dir && !is_symlink && !is_file ==> s is Skip,
{
    if is_dir {
        CopyStep::Descend
    } else if is_symlink {
        CopyStep::Skip
    } else if is_file {
        CopyStep::CopyFile
    } else {
        CopyStep::Skip
    }
}

/// The platforms whose file managers are known.
#[derive(Clone, Copy)]
pub enum Platform {
    Windows,
    MacOs,
    /// Unix other than macOS.
    OtherUnix,
}

/// The programs tried, in order, to show a folder on each platform.
pub open spec fn file_managers(p: Platform) -> Seq<Seq<char>> {
    match p {
        Platform::Windows => seq!["explorer"@],
        Platform::MacOs => seq!["open"@],
        Platform::OtherUnix => seq!["xdg-open"@, "nautilus"@, "thunar"@, "dolphin"@],
    }
}

/// The next program to start when showing a folder, once `tried` programs of
/// the platform's list have been tried: none once the last one started
/// (`last_spawn_ok`) or the list is exhausted, else the next of the list.
pub fn next_file_manager(p: Platform, tried: usize, last_spawn_ok: bool) -> (r: Option<String>)
    ensures
        last_spawn_ok ==> r is None,
        !last_spawn_ok && tried < file_managers(p).len() ==> r is Some && r->0@ == file_managers(
            p,
        )[tried as int],
        tried >= file_managers(p).len() ==> r is None,
{
    if last_spawn_ok {
        return None;
    }
    let name: Option<&str> = match p {
        Platform::Windows => if tried == 0 {
            Some("explorer")
        } else {
            None
        },
        Platform::MacOs => if tried == 0 {
            Some("open")
        } else {
            None
        },
        Platform::OtherUnix => if tried == 0 {
            Some("xdg-open")
        } else if tried == 1 {
            Some("nautilus")
        } else if tried == 2 {
            Some("thunar")
        } else if tried == 3 {
            Some("dolphin")
        } else {
            None
        },
    };
    match name {
        Some(s) => Some(String::from_str(s)),
        None => None,
    }
}

} // verus!
