//! Source-file discovery rules: which directory entries a repository walk
//! descends into, which files it keeps and in which language, the record of
//! a kept file with its content hash, and the incremental-indexing decisions
//! (which files changed, which indexed paths went stale).

use vstd::prelude::*;
use crate::parser::{language_of_extension, Language};
use crate::paths::{extension_of, file_name_of, path_extension, path_file_name, path_strip_prefix, strip_prefix_of};
use crate::text::{ends_with, is_suffix_of, owned, str_eq};

verus! {

/// A source file found by a scan.
#[derive(Debug)]
pub struct FileInfo {
    pub path: String,
    pub relative_path: String,
    pub language: Language,
    pub content_hash: u64,
    pub size_bytes: u64,
}

/// Mathematical view of a [`FileInfo`].
pub struct FileInfoV {
    pub path: Seq<char>,
    pub relative_path: Seq<char>,
    pub language: Language,
    pub content_hash: u64,
    pub size_bytes: u64,
}

impl View for FileInfo {
    type V = FileInfoV;

    open spec fn view(&self) -> FileInfoV {
        FileInfoV {
            path: self.path@,
            relative_path: self.relative_path@,
            language: self.language,
            content_hash: self.content_hash,
            size_bytes: self.size_bytes,
        }
    }
}

impl DeepView for FileInfo {
    type V = FileInfoV;

    open spec fn deep_view(&self) -> FileInfoV {
        self@
    }
}

impl FileInfo {
    /// A copy of the record.
    pub fn duplicate(&self) -> (r: FileInfo)
        ensures
            r@ == self@,
    {
        FileInfo {
            path: self.path.clone(),
            relative_path: self.relative_path.clone(),
            language: self.language,
            content_hash: self.content_hash,
            size_bytes: self.size_bytes,
        }
    }
}

/// The files found by a scan, in walk order.
#[derive(Debug)]
pub struct ScanResult {
    pub files: Vec<FileInfo>,
}

// ─── Walk filter ────────────────────────────────────────────────────

/// Directory or file names that a scan never enters: dependency, build and
/// tool directories.
pub open spec fn is_skipped_name(name: Seq<char>) -> bool {
    name == "node_modules"@ || name == "vendor"@ || name == ".git"@ || name == ".codeatlas"@ || name
        == "target"@ || name == "dist"@ || name == "build"@ || name == "__pycache__"@
}

/// Directory names that hold tests.
pub open spec fn is_test_dir_name(name: Seq<char>) -> bool {
    name == "spec"@ || name == "specs"@ || name == "test"@ || name == "tests"@ || name == "__tests__"@
        || name == "fixtures"@
}

/// Whether the walk keeps (and, for a directory, descends into) an entry.
pub open spec fn entry_kept(name: Seq<char>, is_dir: bool, exclude_tests: bool) -> bool {
    !is_skipped_name(name) && !(exclude_tests && is_dir && is_test_dir_name(name))
}

/// Whether the walk keeps an entry with this file name: skipped directories
/// are pruned always, test directories only when tests are excluded.
pub fn keep_entry(name: &str, is_dir: bool, exclude_tests: bool) -> (r: bool)
    ensures
        r == entry_kept(name@, is_dir, exclude_tests),
{
    let skipped = str_eq(name, "node_modules") || str_eq(name, "vendor") || str_eq(name, ".git")
        || str_eq(name, ".codeatlas") || str_eq(name, "target") || str_eq(name, "dist") || str_eq(
        name,
        "build",
    ) || str_eq(name, "__pycache__");
    if skipped {
        return false;
    }
    if exclude_tests && is_dir {
        let test_dir = str_eq(name, "spec") || str_eq(name, "specs") || str_eq(name, "test") || str_eq(
            name,
            "tests",
        ) || str_eq(name, "__tests__") || str_eq(name, "fixtures");
        if test_dir {
            return false;
        }
    }
    true
}

/// The walk filter: a skipped name is never kept; excluding tests keeps no
/// entry that including them would drop; and it drops only directories,
/// never a file, for a test directory's name.
pub proof fn law_walk_filter(name: Seq<char>, is_dir: bool, exclude_tests: bool)
    ensures
        is_skipped_name(name) ==> !entry_kept(name, is_dir, exclude_tests),
        entry_kept(name, is_dir, true) ==> entry_kept(name, is_dir, false),
        entry_kept(name, false, true) == entry_kept(name, false, false),
        !is_skipped_name(name) && !is_test_dir_name(name) ==> entry_kept(name, is_dir, exclude_tests),
{
}

// ─── File classification ────────────────────────────────────────────

/// File names that follow a test naming convention (`foo_spec.rb`,
/// `foo_test.go`, `foo.test.ts`, `foo.spec.tsx`, ...).
pub open spec fn has_test_suffix(name: Seq<char>) -> bool {
    is_suffix_of("_spec.rb"@, name) || is_suffix_of("_test.go"@, name) || is_suffix_of(".test.ts"@, name)
        || is_suffix_of(".spec.ts"@, name) || is_suffix_of(".test.js"@, name) || is_suffix_of(
        ".spec.js"@,
        name,
    ) || is_suffix_of(".test.tsx"@, name) || is_suffix_of(".spec.tsx"@, name)
}

/// A path whose final component follows a test naming convention.
pub open spec fn test_file(path: Seq<char>) -> bool {
    match path_file_name(path) {
        Some(n) => has_test_suffix(n),
        None => false,
    }
}

/// Returns true for well-known test file naming patterns.
pub fn is_test_file(path: &str) -> (r: bool)
    ensures
        r == test_file(path@),
{
    let name = match file_name_of(path) {
        Some(n) => n,
        None => return false,
    };
    let n = name.as_str();
    ends_with(n, "_spec.rb") || ends_with(n, "_test.go") || ends_with(n, ".test.ts") || ends_with(
        n,
        ".spec.ts",
    ) || ends_with(n, ".test.js") || ends_with(n, ".spec.js") || ends_with(n, ".test.tsx")
        || ends_with(n, ".spec.tsx")
}

/// The language of a path, by its extension.
pub open spec fn language_of_path(path: Seq<char>) -> Option<Language> {
    match path_extension(path) {
        Some(e) => language_of_extension(e),
        None => None,
    }
}

/// The language of a path, by its extension.
pub fn detect_language(path: &str) -> (r: Option<Language>)
    ensures
        r == language_of_path(path@),
{
    match extension_of(path) {
        Some(e) => Language::from_extension(e.as_str()),
        None => None,
    }
}

/// The language in which a walked file is indexed; `None` when the scan
/// leaves it out (a test file while tests are excluded, or an unsupported
/// extension).
pub open spec fn scanned_language(path: Seq<char>, exclude_tests: bool) -> Option<Language> {
    if exclude_tests && test_file(path) {
        None
    } else {
        language_of_path(path)
    }
}

/// The language in which a walked file is indexed, if it is indexed at all.
pub fn classify_file(path: &str, exclude_tests: bool) -> (r: Option<Language>)
    ensures
        r == scanned_language(path@, exclude_tests),
{
    if exclude_tests && is_test_file(path) {
        None
    } else {
        detect_language(path)
    }
}

// ─── File records ───────────────────────────────────────────────────

/// What `xxhash_rust::xxh3::xxh3_64` returns for a byte string.
pub uninterp spec fn xxh3_hash(bytes: Seq<u8>) -> u64;

/// The XXH3 64-bit hash (seed 0) of a byte string, by
/// `xxhash_rust::xxh3::xxh3_64`; the contract only names the result.
#[verifier::external_body]
fn xxh3_of(bytes: &[u8]) -> (h: u64)
    ensures
        h == xxh3_hash(bytes@),
{
    xxhash_rust::xxh3::xxh3_64(bytes)
}

/// A path relative to the scan root; the path itself when the root is not
/// a prefix of it.
pub open spec fn relative_to_root(path: Seq<char>, root: Seq<char>) -> Seq<char> {
    match path_strip_prefix(path, root) {
        Some(r) => r,
        None => path,
    }
}

/// The record of a scanned file with the given content.
pub open spec fn file_record_of(path: Seq<char>, root: Seq<char>, language: Language, content: Seq<u8>) -> FileInfoV {
    FileInfoV {
        path,
        relative_path: relative_to_root(path, root),
        language,
        content_hash: xxh3_hash(content),
        size_bytes: content.len() as u64,
    }
}

/// The record of a scanned file: its path relative to `root`, its language,
/// the XXH3 hash and the size of its content.
pub fn file_record(path: &str, root: &str, language: Language, content: &[u8]) -> (r: FileInfo)
    ensures
        r@ == file_record_of(path@, root@, language, content@),
{
    let content_hash = xxh3_of(content);
    let relative_path = match strip_prefix_of(path, root) {
        Some(r) => r,
        None => owned(path),
    };
    FileInfo { path: owned(path), relative_path, language, content_hash, size_bytes: content.len() as u64 }
}

// ─── Incremental indexing ───────────────────────────────────────────

/// Whether a file must be (re-)indexed given the hash stored for its path.
pub open spec fn needs_update(f: FileInfoV, stored: Option<u64>) -> bool {
    match stored {
        Some(h) => h != f.content_hash,
        None => true,
    }
}

/// The files, in order, whose stored hash (`stored[i]` for `files[i]`) is
/// missing or differs from their content hash.
pub open spec fn changed_files_of(files: Seq<FileInfoV>, stored: Seq<Option<u64>>) -> Seq<FileInfoV>
    decreases files.len(),
{
    if files.len() == 0 {
        Seq::empty()
    } else {
        let rest = changed_files_of(files.drop_last(), stored.take(files.len() - 1));
        if needs_update(files.last(), stored[files.len() - 1]) {
            rest.push(files.last())
        } else {
            rest
        }
    }
}

/// The files that changed since they were last indexed; `stored_hashes[i]`
/// is the hash recorded for `files[i]`, if any.
pub fn changed_files(files: &[FileInfo], stored_hashes: &[Option<u64>]) -> (r: Vec<FileInfo>)
    requires
        files@.len() == stored_hashes@.len(),
    ensures
        r.deep_view() == changed_files_of(files.deep_view(), stored_hashes@),
{
    let ghost fv = files.deep_view();
    let mut r: Vec<FileInfo> = Vec::new();
    let mut i: usize = 0;
    while i < files.len()
        invariant
            files@.len() == stored_hashes@.len(),
            fv == files.deep_view(),
            i <= fv.len(),
            r.deep_view() == changed_files_of(fv.take(i as int), stored_hashes@.take(i as int)),
        decreases fv.len() - i,
    {
        proof {
            assert(fv.take(i + 1).drop_last() =~= fv.take(i as int));
            assert(stored_hashes@.take(i + 1).take(i as int) =~= stored_hashes@.take(i as int));
            assert(fv.take(i + 1).last() == fv[i as int]);
        }
        let update = match stored_hashes[i] {
            Some(h) => h != files[i].content_hash,
            None => true,
        };
        if update {
            let ghost before = r.deep_view();
            r.push(files[i].duplicate());
            proof {
                assert(r.deep_view() =~= before.push(fv[i as int]));
            }
        }
        i = i + 1;
    }
    proof {
        assert(fv.take(fv.len() as int) =~= fv);
        assert(stored_hashes@.take(fv.len() as int) =~= stored_hashes@);
    }
    r
}

/// Relative paths of a list of file records.
pub open spec fn relative_paths(files: Seq<FileInfoV>) -> Seq<Seq<char>> {
    files.map_values(|f: FileInfoV| f.relative_path)
}

/// Indexed paths, in order, that no scanned file has as its relative path.
pub open spec fn stale_paths_of(indexed: Seq<Seq<char>>, files: Seq<FileInfoV>) -> Seq<Seq<char>> {
    indexed.filter(|p: Seq<char>| !relative_paths(files).contains(p))
}

/// Whether some file has relative path `p`.
fn has_relative_path(files: &[FileInfo], p: &str) -> (r: bool)
    ensures
        r == relative_paths(files.deep_view()).contains(p@),
{
    let ghost rp = relative_paths(files.deep_view());
    let mut i: usize = 0;
    while i < files.len()
        invariant
            rp == relative_paths(files.deep_view()),
            i <= files@.len(),
            forall|j: int| 0 <= j < i ==> rp[j] != p@,
        decreases files@.len() - i,
    {
        if str_eq(files[i].relative_path.as_str(), p) {
            proof {
                assert(rp[i as int] == p@);
            }
            return true;
        }
        i = i + 1;
    }
    false
}

/// Indexed paths whose files are gone from disk.
pub fn stale_paths(indexed: &[String], files: &[FileInfo]) -> (r: Vec<String>)
    ensures
        r.deep_view() == stale_paths_of(indexed.deep_view(), files.deep_view()),
{
    let ghost iv = indexed.deep_view();
    let ghost rp = relative_paths(files.deep_view());
    let mut r: Vec<String> = Vec::new();
    let mut i: usize = 0;
    while i < indexed.len()
        invariant
            iv == indexed.deep_view(),
            rp == relative_paths(files.deep_view()),
            i <= iv.len(),
            r.deep_view() == iv.take(i as int).filter(|p: Seq<char>| !rp.contains(p)),
        decreases iv.len() - i,
    {
        proof {
            assert(iv.take(i + 1).drop_last() =~= iv.take(i as int));
            assert(iv.take(i + 1).last() == iv[i as int]);
            reveal(Seq::filter);
        }
        if !has_relative_path(files, indexed[i].as_str()) {
            let ghost before = r.deep_view();
            r.push(indexed[i].clone());
            proof {
                assert(r.deep_view() =~= before.push(iv[i as int]));
            }
        }
        i = i + 1;
    }
    proof {
        assert(iv.take(iv.len() as int) =~= iv);
    }
    r
}

/// Some scanned file equal to `f` needs to be re-analyzed.
pub open spec fn needing_update(files: Seq<FileInfoV>, stored: Seq<Option<u64>>, f: FileInfoV) -> bool {
    exists|i: int| #![trigger files[i]] 0 <= i < files.len() && files[i] == f && needs_update(files[i], stored[i])
}

/// A file is re-analyzed exactly when its stored hash is missing or differs
/// from its content hash: every reported file is a scanned file that needs
/// it, and every scanned file that needs it is reported.
pub proof fn law_changed_files(files: Seq<FileInfoV>, stored: Seq<Option<u64>>)
    requires
        files.len() == stored.len(),
    ensures
        changed_files_of(files, stored).len() <= files.len(),
        forall|k: int|
            0 <= k < changed_files_of(files, stored).len() ==> needing_update(
                files,
                stored,
                #[trigger] changed_files_of(files, stored)[k],
            ),
        forall|i: int|
            0 <= i < files.len() && needs_update(files[i], stored[i]) ==> changed_files_of(files, stored).contains(
                #[trigger] files[i],
            ),
    decreases files.len(),
{
    if files.len() > 0 {
        let n = files.len() - 1;
        let fs = files.drop_last();
        let st = stored.take(n);
        law_changed_files(fs, st);
        let rest = changed_files_of(fs, st);
        let r = changed_files_of(files, stored);
        assert forall|k: int| 0 <= k < r.len() implies needing_update(files, stored, #[trigger] r[k]) by {
            if k < rest.len() {
                assert(needing_update(fs, st, rest[k]));
                let i = choose|i: int| 0 <= i < fs.len() && fs[i] == rest[k] && needs_update(fs[i], st[i]);
                assert(files[i] == fs[i] && stored[i] == st[i]);
                assert(r[k] == rest[k]);
            } else {
                assert(r[k] == files[n]);
                assert(needs_update(files[n], stored[n]));
            }
        }
        assert forall|i: int| 0 <= i < files.len() && needs_update(files[i], stored[i]) implies r.contains(
            #[trigger] files[i],
        ) by {
            if i < n {
                assert(files[i] == fs[i] && stored[i] == st[i]);
                assert(rest.contains(fs[i]));
                let k = choose|k: int| 0 <= k < rest.len() && rest[k] == fs[i];
                assert(r[k] == rest[k]);
            } else {
                assert(r[r.len() - 1] == files[n]);
            }
        }
    }
}

/// Stale paths are exactly the indexed paths that no scanned file has: each
/// reported path was indexed and is not scanned, and each such path is
/// reported.
pub proof fn law_stale_paths(indexed: Seq<Seq<char>>, files: Seq<FileInfoV>)
    ensures
        forall|p: Seq<char>|
            #[trigger] stale_paths_of(indexed, files).contains(p) <==> (indexed.contains(p)
                && !relative_paths(files).contains(p)),
{
    let pred = |p: Seq<char>| !relative_paths(files).contains(p);
    assert forall|p: Seq<char>|
        #[trigger] stale_paths_of(indexed, files).contains(p) <==> (indexed.contains(p) && !relative_paths(
            files,
        ).contains(p)) by {
        if stale_paths_of(indexed, files).contains(p) {
            indexed.lemma_filter_contains_rev(pred, p);
            let k = choose|k: int| 0 <= k < indexed.filter(pred).len() && indexed.filter(pred)[k] == p;
            indexed.lemma_filter_pred(pred, k);
        }
        if indexed.contains(p) && !relative_paths(files).contains(p) {
            let i = choose|i: int| 0 <= i < indexed.len() && indexed[i] == p;
            indexed.lemma_filter_contains(pred, i);
        }
    }
}

/// Whether every scanned file is re-indexed: on request, or when deleted
/// files were removed from the index (communities and flows are then
/// recomputed over a consistent symbol set).
pub fn reindex_all(force: bool, removed: usize) -> (r: bool)
    ensures
        r == (force || removed > 0),
{
    force || removed > 0
}

} // verus!
