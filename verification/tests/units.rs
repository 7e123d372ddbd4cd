//! The verified functions of the store on concrete values.

use kvstore::{EntryPaths, FsOp, KVStore, StoreError};
use kvstore::paths::{combine_string, create_file_path, directory_for, ends_with_str, is_key_file, is_mapping_file, normalize_dir};
use kvstore::store::count_key_files;

const KEY_DIGEST: &str = "c0c1baf2fa65372c83bc5781a31d3ee0bceb37e7917317f33a92825fe5367189";

fn describe(ops: &Vec<FsOp>) -> Vec<String> {
    ops.iter().map(|op| format!("{:?}", op)).collect()
}

#[test]
fn combine_string_joins() {
    assert_eq!(combine_string("2/", "c0c1baf2fa"), "2/c0c1baf2fa");
    assert_eq!(combine_string("", ""), "");
}

#[test]
fn create_file_path_puts_a_slash_between() {
    let dir = String::from("2/c0c1baf2fa");
    assert_eq!(create_file_path(&dir, "abc", ".key"), "2/c0c1baf2fa/abc.key");
    assert_eq!(create_file_path(&dir, "abc", ".value"), "2/c0c1baf2fa/abc.value");
}

#[test]
fn empty_path_is_the_current_directory() {
    assert_eq!(directory_for(""), ".");
    assert_eq!(directory_for("data"), "data");
    let kvs = KVStore::from_listing("", &Vec::new());
    assert_eq!(kvs.path(), "./");
}

#[test]
fn trailing_slash_is_added_once() {
    assert_eq!(normalize_dir("0"), "0/");
    assert_eq!(normalize_dir("0/"), "0/");
    assert_eq!(normalize_dir("/"), "/");
    assert_eq!(normalize_dir("a/b"), "a/b/");
    assert_eq!(normalize_dir("é/x"), "é/x/");
}

#[test]
fn ends_with_str_compares_suffixes() {
    assert!(ends_with_str("2/ab/x.key", ".key"));
    assert!(ends_with_str(".key", ".key"));
    assert!(!ends_with_str("a.keyb", ".key"));
    assert!(!ends_with_str(".ke", ".key"));
    assert!(ends_with_str("anything", ""));
    assert!(!ends_with_str("", "x"));
    assert!(ends_with_str("é", "é"));
}

#[test]
fn mapping_file_names() {
    assert!(is_key_file("s/aa/x.key"));
    assert!(!is_key_file("s.key/aa/x.value"));
    assert!(is_mapping_file("s/aa/x.value"));
    assert!(is_mapping_file("s/aa/x.key"));
    assert!(!is_mapping_file("s/aa/notes.txt"));
}

#[test]
fn key_files_are_counted_by_their_names() {
    let files = vec![
        String::from("2/aa/x.key"),
        String::from("2/aa/x.value"),
        String::from("2/bb/y.key"),
        String::from("2/bb/temp.key"),
        String::from("2/cc/notes.txt"),
    ];
    assert_eq!(count_key_files(&files), 3);
    assert_eq!(count_key_files(&Vec::new()), 0);
}

#[test]
fn a_directory_named_like_a_key_counts_only_key_files() {
    let files = vec![
        String::from("d.key/aa/x.key"),
        String::from("d.key/aa/x.value"),
        String::from("d.key/aa/x.txt"),
    ];
    assert_eq!(count_key_files(&files), 1);
    let kvs = KVStore::from_listing("d.key", &files);
    assert_eq!(kvs.size(), 1);
    assert_eq!(kvs.path(), "d.key/");
}

#[test]
fn a_path_ending_in_a_wide_character() {
    assert_eq!(normalize_dir("é"), "é/");
    let kvs = KVStore::from_listing("é", &Vec::new());
    assert_eq!(kvs.path(), "é/");
    assert_eq!(kvs.size(), 0);
}

#[test]
fn files_are_named_by_the_sha256_of_the_key() {
    let kvs = KVStore::from_parts(0, String::from(""));
    let e = kvs.locate("hello");
    assert_eq!(e.subdir, "2cf24dba5f");
    assert_eq!(
        e.key_file,
        "2cf24dba5f/2cf24dba5fb0a30e26e83b2ac5b9e29e1b161e5c1fa7425e73043362938b9824.key"
    );
}

#[test]
fn locate_names_the_files_of_a_key() {
    let kvs = KVStore::from_parts(0, String::from("14/"));
    let e = kvs.locate("\"key\"");
    assert_eq!(e.subdir, "14/c0c1baf2fa");
    assert_eq!(e.key_file, format!("14/c0c1baf2fa/{}.key", KEY_DIGEST));
    assert_eq!(e.value_file, format!("14/c0c1baf2fa/{}.value", KEY_DIGEST));
}

#[test]
fn from_digest_cuts_ten_characters() {
    let e = EntryPaths::from_digest("s/", "0123456789abcdef");
    assert_eq!(e.subdir, "s/0123456789");
    assert_eq!(e.key_file, "s/0123456789/0123456789abcdef.key");
    assert_eq!(e.value_file, "s/0123456789/0123456789abcdef.value");
}

#[test]
fn insert_plan_creates_the_subdirectory_where_missing() {
    let e = EntryPaths::from_digest("s/", "0123456789ab");
    let ops = e.insert_plan("\"k\"", "1", false, false).unwrap();
    assert_eq!(
        describe(&ops),
        vec![
            String::from("CreateDir(\"s/0123456789\")"),
            String::from("WriteFile(\"s/0123456789/0123456789ab.key\", \"\\\"k\\\"\")"),
            String::from("WriteFile(\"s/0123456789/0123456789ab.value\", \"1\")"),
        ]
    );
    let ops = e.insert_plan("\"k\"", "1", true, false).unwrap();
    assert_eq!(ops.len(), 2);
    assert_eq!(e.insert_plan("\"k\"", "1", true, true).unwrap_err(), StoreError::AlreadyExists);
}

#[test]
fn lookup_plan_reads_the_value_file() {
    let e = EntryPaths::from_digest("s/", "0123456789ab");
    let ops = e.lookup_plan(true, true).unwrap();
    assert_eq!(describe(&ops), vec![String::from("ReadFile(\"s/0123456789/0123456789ab.value\")")]);
    assert_eq!(e.lookup_plan(false, false).unwrap_err(), StoreError::NotFound);
    assert_eq!(e.lookup_plan(true, false).unwrap_err(), StoreError::NotFound);
    assert_eq!(e.lookup_plan(false, true).unwrap_err(), StoreError::NotFound);
}

#[test]
fn remove_plan_removes_the_key_file_first() {
    let e = EntryPaths::from_digest("s/", "0123456789ab");
    let ops = e.remove_plan(true, true).unwrap();
    assert_eq!(
        describe(&ops),
        vec![
            String::from("RemoveFile(\"s/0123456789/0123456789ab.key\")"),
            String::from("ReadFile(\"s/0123456789/0123456789ab.value\")"),
            String::from("RemoveFile(\"s/0123456789/0123456789ab.value\")"),
        ]
    );
    assert_eq!(e.remove_plan(true, false).unwrap_err(), StoreError::NotFound);
    assert_eq!(e.remove_plan(false, false).unwrap_err(), StoreError::NotFound);
}

#[test]
fn cleanup_plan_removes_a_subdirectory_without_mapping_files() {
    let e = EntryPaths::from_digest("s/", "0123456789ab");
    let gone = vec![String::from("RemoveDirAll(\"s/0123456789\")")];
    assert_eq!(describe(&e.cleanup_plan(&Vec::new())), gone);
    assert_eq!(describe(&e.cleanup_plan(&vec![String::from("s/0123456789/notes.txt")])), gone);
    assert!(e.cleanup_plan(&vec![String::from("s/0123456789/temp.key")]).is_empty());
    assert!(e.cleanup_plan(&vec![String::from("s/0123456789/a.txt"), String::from("s/0123456789/b.value")]).is_empty());
}

#[test]
fn error_messages() {
    assert_eq!(
        StoreError::AlreadyExists.message(),
        "There is a key-value mapping stored already with the same key."
    );
    assert_eq!(StoreError::NotFound.message(), "No key-value mapping exists with this key.");
}

#[test]
fn size_follows_insertions_and_removals() {
    let mut kvs = KVStore::from_parts(5, String::from("x/"));
    kvs.record_insert();
    assert_eq!(kvs.size(), 6);
    kvs.record_remove();
    kvs.record_remove();
    assert_eq!(kvs.size(), 4);
    assert_eq!(kvs.path(), "x/");
    let mut fresh = KVStore::from_parts(0, String::from("y/"));
    fresh.record_remove();
    assert_eq!(fresh.size(), 0);
}
