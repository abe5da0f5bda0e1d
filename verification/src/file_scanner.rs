//! Which entries of a directory tree the scan descends into and which it collects.
use vstd::prelude::*;
use crate::text::same_text;

verus! {

/// Directories that hold dependencies, build output or version control, not sources.
pub open spec fn ignored_directory(name: Seq<char>) -> bool {
    name == "node_modules"@ || name == ".next"@ || name == "dist"@ || name == "build"@ || name == ".git"@
}

/// Extensions of the source files that the analysis reads.
pub open spec fn source_extension(ext: Seq<char>) -> bool {
    ext == "ts"@ || ext == "tsx"@ || ext == "jsx"@ || ext == "js"@
}

/// The scan passes over exactly the directories named `node_modules`, `.next`, `dist`,
/// `build` and `.git`: such a directory is neither scanned nor collected, and every other
/// directory is scanned.
pub proof fn law_ignored_directories(name: Seq<char>)
    ensures
        ignored_directory(name) <==> (name == "node_modules"@ || name == ".next"@ || name == "dist"@
            || name == "build"@ || name == ".git"@),
{
}

/// The scan collects exactly the entries with extension `ts`, `tsx`, `js` or `jsx` (that are
/// not ignored directories): a TypeScript or JavaScript file, JSX included, is always read.
pub proof fn law_source_extensions(ext: Seq<char>)
    ensures
        source_extension(ext) <==> (ext == "ts"@ || ext == "tsx"@ || ext == "js"@ || ext == "jsx"@),
{
}

/// What the scan does with a directory entry.
pub struct EntryAction {
    /// Scan the entry as a directory.
    pub descend: bool,
    /// Collect the entry as a source file.
    pub collect: bool,
}

/// Whether `name` is a directory that the scan passes over.
pub fn is_ignored_directory(name: &str) -> (b: bool)
    ensures
        b == ignored_directory(name@),
{
    same_text(name, "node_modules") || same_text(name, ".next") || same_text(name, "dist") || same_text(name, "build")
        || same_text(name, ".git")
}

/// Whether `ext` is the extension of a source file.
pub fn is_source_extension(ext: &str) -> (b: bool)
    ensures
        b == source_extension(ext@),
{
    same_text(ext, "ts") || same_text(ext, "tsx") || same_text(ext, "jsx") || same_text(ext, "js")
}

/// Decides what to do with an entry, given whether it is a directory, its file name and its
/// extension (each absent when it is not valid Unicode): an ignored directory is passed
/// over; any other directory is scanned; an entry that is not passed over, directory or not,
/// is collected when its extension is a source extension.
pub fn entry_action(is_dir: bool, name: Option<&str>, ext: Option<&str>) -> (a: EntryAction)
    ensures
        ({
            let skipped = is_dir && (name matches Some(n) && ignored_directory(n@));
            &&& a.descend == (is_dir && !skipped)
            &&& a.collect == (!skipped && (ext matches Some(e) && source_extension(e@)))
        }),
{
    if is_dir {
        if let Some(n) = name {
            if is_ignored_directory(n) {
                return EntryAction { descend: false, collect: false };
            }
        }
    }
    let descend = is_dir;
    let mut collect = false;
    if let Some(e) = ext {
        if is_source_extension(e) {
            collect = true;
        }
    }
    EntryAction { descend, collect }
}

} // verus!
