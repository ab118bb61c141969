use codeatlas::parser::Language;
use codeatlas::scanner::{
    changed_files, classify_file, detect_language, file_record, is_test_file, keep_entry, reindex_all, stale_paths,
    FileInfo,
};

fn info(rel: &str, hash: u64) -> FileInfo {
    FileInfo {
        path: format!("/repo/{}", rel),
        relative_path: rel.to_string(),
        language: Language::TypeScript,
        content_hash: hash,
        size_bytes: 10,
    }
}

#[test]
fn skipped_directories_are_pruned() {
    for name in ["node_modules", "vendor", ".git", ".codeatlas", "target", "dist", "build", "__pycache__"] {
        assert!(!keep_entry(name, true, false), "{}", name);
        assert!(!keep_entry(name, false, false), "{}", name);
    }
    assert!(keep_entry("src", true, false));
    assert!(keep_entry("main.go", false, true));
}

#[test]
fn test_directories_pruned_only_when_excluding_tests() {
    for name in ["spec", "specs", "test", "tests", "__tests__", "fixtures"] {
        assert!(keep_entry(name, true, false), "{}", name);
        assert!(!keep_entry(name, true, true), "{}", name);
        // a file with such a name is still kept
        assert!(keep_entry(name, false, true), "{}", name);
    }
}

#[test]
fn test_file_patterns() {
    assert!(is_test_file("app/models/user_spec.rb"));
    assert!(is_test_file("pkg/server_test.go"));
    assert!(is_test_file("src/a.test.ts"));
    assert!(is_test_file("src/a.spec.ts"));
    assert!(is_test_file("src/a.test.js"));
    assert!(is_test_file("src/a.spec.js"));
    assert!(is_test_file("src/a.test.tsx"));
    assert!(is_test_file("src/a.spec.tsx"));
    assert!(!is_test_file("src/testing.ts"));
    assert!(!is_test_file("spec_helper.rb"));
    assert!(!is_test_file(""));
}

#[test]
fn language_by_extension() {
    assert_eq!(detect_language("a/b/c.rb"), Some(Language::Ruby));
    assert_eq!(detect_language("main.go"), Some(Language::Go));
    assert_eq!(detect_language("x.tsx"), Some(Language::TypeScript));
    assert_eq!(detect_language("x.jsx"), Some(Language::TypeScript));
    assert_eq!(detect_language("README.md"), None);
    assert_eq!(detect_language("Makefile"), None);
}

#[test]
fn classify_respects_exclude_tests() {
    assert_eq!(classify_file("src/a.test.ts", true), None);
    assert_eq!(classify_file("src/a.test.ts", false), Some(Language::TypeScript));
    assert_eq!(classify_file("src/a.ts", true), Some(Language::TypeScript));
    assert_eq!(classify_file("notes.txt", false), None);
}

#[test]
fn file_record_hashes_content_and_strips_root() {
    let content = b"export function f() {}\n";
    let rec = file_record("/repo/src/a.ts", "/repo", Language::TypeScript, content);
    assert_eq!(rec.path, "/repo/src/a.ts");
    assert_eq!(rec.relative_path, "src/a.ts");
    assert_eq!(rec.language, Language::TypeScript);
    assert_eq!(rec.size_bytes, content.len() as u64);
    assert_eq!(rec.content_hash, xxhash_rust::xxh3::xxh3_64(content));
    let other = file_record("/repo/src/a.ts", "/repo", Language::TypeScript, b"different");
    assert_ne!(rec.content_hash, other.content_hash);
}

#[test]
fn file_record_outside_root_keeps_path() {
    let rec = file_record("/elsewhere/x.go", "/repo", Language::Go, b"package x");
    assert_eq!(rec.relative_path, "/elsewhere/x.go");
}

#[test]
fn changed_files_by_stored_hash() {
    let files = vec![info("a.ts", 1), info("b.ts", 2), info("c.ts", 3)];
    let stored = vec![Some(1), Some(99), None];
    let changed = changed_files(&files, &stored);
    let names: Vec<&str> = changed.iter().map(|f| f.relative_path.as_str()).collect();
    assert_eq!(names, vec!["b.ts", "c.ts"]);
}

#[test]
fn stale_paths_are_indexed_but_not_scanned() {
    let files = vec![info("a.ts", 1), info("c.ts", 3)];
    let indexed = vec!["a.ts".to_string(), "b.ts".to_string(), "d.ts".to_string()];
    let stale = stale_paths(&indexed, &files);
    assert_eq!(stale, vec!["b.ts".to_string(), "d.ts".to_string()]);
    assert!(stale_paths(&[], &files).is_empty());
}

#[test]
fn reindex_all_when_forced_or_files_removed() {
    assert!(reindex_all(true, 0));
    assert!(reindex_all(false, 2));
    assert!(!reindex_all(false, 0));
}

#[test]
fn excluding_tests_only_drops_test_directories() {
    for name in ["src", "tests", "spec", "node_modules", "main.go", "fixtures", "lib"] {
        for is_dir in [true, false] {
            if keep_entry(name, is_dir, true) {
                assert!(keep_entry(name, is_dir, false), "{}", name);
            }
        }
        assert_eq!(keep_entry(name, false, true), keep_entry(name, false, false), "{}", name);
    }
    assert!(!keep_entry("tests", true, true));
    assert!(keep_entry("tests", true, false));
}

#[test]
fn exclude_tests_flag_skips_spec_files() {
    let paths = ["app/models/user.rb", "spec/models/user_spec.rb", "lib/util_test.go", "src/app.test.ts", "src/app.ts"];
    let with_tests = paths.iter().filter(|p| classify_file(p, false).is_some()).count();
    let without = paths.iter().filter(|p| classify_file(p, true).is_some()).count();
    assert!(without <= with_tests);
    assert_eq!(with_tests, 5);
    assert_eq!(without, 2);
}
