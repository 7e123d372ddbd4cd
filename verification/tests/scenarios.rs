//! The store's operations driven against a file system kept in memory, which
//! performs the plans the library hands out the way a real one would.

use std::collections::{BTreeMap, BTreeSet};

use kvstore::{EntryPaths, FsOp, KVStore, StoreError};
use kvstore::paths::directory_for;

struct MemDisk {
    dirs: BTreeSet<String>,
    files: BTreeMap<String, String>,
}

impl MemDisk {
    fn new() -> MemDisk {
        MemDisk { dirs: BTreeSet::new(), files: BTreeMap::new() }
    }

    fn has_entry(&self, p: &str) -> bool {
        self.dirs.contains(p) || self.files.contains_key(p)
    }

    fn is_under(p: &str, dir: &str) -> bool {
        p.len() > dir.len() + 1 && p.starts_with(dir) && p.as_bytes()[dir.len()] == b'/'
    }

    fn dir_is_empty(&self, dir: &str) -> bool {
        !self.files.keys().any(|p| Self::is_under(p, dir))
            && !self.dirs.iter().any(|p| Self::is_under(p, dir))
    }

    /// The paths of the entries directly inside `dir`.
    fn children(&self, dir: &str) -> Vec<String> {
        let prefix = format!("{}/", dir);
        self.dirs
            .iter()
            .chain(self.files.keys())
            .filter(|p| match p.strip_prefix(prefix.as_str()) {
                Some(rest) => !rest.is_empty() && !rest.contains('/'),
                None => false,
            })
            .cloned()
            .collect()
    }

    /// Performs one step; returns what a read read.
    fn perform(&mut self, op: FsOp) -> Result<Option<String>, String> {
        match op {
            FsOp::CreateDir(p) => {
                self.dirs.insert(p);
                Ok(None)
            }
            FsOp::WriteFile(p, c) => {
                self.files.insert(p, c);
                Ok(None)
            }
            FsOp::ReadFile(p) => match self.files.get(&p) {
                Some(c) => Ok(Some(c.clone())),
                None => Err(format!("cannot read {}", p)),
            },
            FsOp::RemoveFile(p) => match self.files.remove(&p) {
                Some(_) => Ok(None),
                None => Err(format!("cannot remove {}", p)),
            },
            FsOp::RemoveDirAll(p) => {
                self.dirs.retain(|q| q != &p && !Self::is_under(q, &p));
                self.files.retain(|q, _| !Self::is_under(q, &p));
                Ok(None)
            }
        }
    }

    fn run(&mut self, ops: Vec<FsOp>) -> Option<String> {
        let mut read = None;
        for op in ops {
            if let Some(c) = self.perform(op).unwrap() {
                read = Some(c);
            }
        }
        read
    }

    /// The paths of the files in the subdirectories of `dir`, as
    /// `read_dir` would join them.
    fn files_in_subdirs(&self, dir: &str) -> Vec<String> {
        let prefix = format!("{}/", dir);
        let mut out = Vec::new();
        for sub in self.dirs.iter() {
            let rest = match sub.strip_prefix(prefix.as_str()) {
                Some(r) => r,
                None => continue,
            };
            if rest.is_empty() || rest.contains('/') {
                continue;
            }
            let sub_prefix = format!("{}/", sub);
            for f in self.files.keys() {
                if let Some(name) = f.strip_prefix(sub_prefix.as_str()) {
                    if !name.contains('/') {
                        out.push(f.clone());
                    }
                }
            }
        }
        out
    }
}

fn open(disk: &mut MemDisk, path: &str) -> KVStore {
    let dir = directory_for(path);
    disk.dirs.insert(dir.trim_end_matches('/').to_string());
    let files = disk.files_in_subdirs(dir.trim_end_matches('/'));
    KVStore::from_listing(path, &files)
}

fn observe(disk: &MemDisk, entry: &EntryPaths) -> (bool, bool) {
    let subdir_exists = disk.has_entry(&entry.subdir);
    (subdir_exists, subdir_exists && disk.has_entry(&entry.key_file))
}

fn insert(store: &mut KVStore, disk: &mut MemDisk, key: &str, value: &str) -> Result<(), StoreError> {
    let sk = serde_json::to_string(key).unwrap();
    insert_serialized(store, disk, &sk, value.to_string())
}

fn insert_serialized(store: &mut KVStore, disk: &mut MemDisk, sk: &str, sv: String) -> Result<(), StoreError> {
    let entry = store.locate(sk);
    let (s, k) = observe(disk, &entry);
    let ops = entry.insert_plan(sk, &sv, s, k)?;
    disk.run(ops);
    store.record_insert();
    Ok(())
}

fn insert_i32(store: &mut KVStore, disk: &mut MemDisk, key: &str, value: i32) -> Result<(), StoreError> {
    insert(store, disk, key, &serde_json::to_string(&value).unwrap())
}

fn lookup(store: &KVStore, disk: &mut MemDisk, key: &str) -> Result<String, StoreError> {
    let sk = serde_json::to_string(key).unwrap();
    let entry = store.locate(&sk);
    let (s, k) = observe(disk, &entry);
    let ops = entry.lookup_plan(s, k)?;
    Ok(disk.run(ops).unwrap())
}

fn remove(store: &mut KVStore, disk: &mut MemDisk, key: &str) -> Result<String, StoreError> {
    let sk = serde_json::to_string(key).unwrap();
    let entry = store.locate(&sk);
    let (s, k) = observe(disk, &entry);
    let ops = entry.remove_plan(s, k)?;
    let value = disk.run(ops).unwrap();
    let remaining = disk.children(&entry.subdir);
    disk.run(entry.cleanup_plan(&remaining));
    store.record_remove();
    Ok(value)
}

fn point_json() -> String {
    let mut m = serde_json::Map::new();
    m.insert(String::from("x"), serde_json::Value::from(10.3f32));
    m.insert(String::from("y"), serde_json::Value::from(0.4f32));
    serde_json::to_string(&serde_json::Value::Object(m)).unwrap()
}

#[test]
fn test_new_no_dir() {
    let mut disk = MemDisk::new();
    let kvs = open(&mut disk, "0");
    assert_eq!(kvs.size(), 0);
    assert_eq!(kvs.path(), "0/");
}

#[test]
fn test_new_no_existing_dir_and_kvs() {
    let mut disk = MemDisk::new();
    disk.dirs.insert(String::from("1"));
    let kvs = open(&mut disk, "1");
    assert_eq!(kvs.size(), 0);
    assert_eq!(kvs.path(), "1/");
}

#[test]
fn test_new_existing_dir() {
    let mut disk = MemDisk::new();
    let mut kvs = open(&mut disk, "2");
    insert_i32(&mut kvs, &mut disk, "key", 1).unwrap();
    assert_eq!(kvs.size(), 1);
    assert_eq!(kvs.path(), "2/");
    let kvs2 = open(&mut disk, "2");
    assert_eq!(kvs2.size(), 1);
    assert_eq!(kvs2.path(), "2/");
}

#[test]
fn test_size_empty() {
    let mut disk = MemDisk::new();
    let kvs = open(&mut disk, "3");
    assert_eq!(kvs.size(), 0);
}

#[test]
fn test_size_nonempty() {
    let mut disk = MemDisk::new();
    let mut kvs = open(&mut disk, "4");
    insert_i32(&mut kvs, &mut disk, "key", 1).unwrap();
    assert_eq!(kvs.size(), 1);
}

#[test]
fn test_size_nonempty_lots() {
    let mut disk = MemDisk::new();
    let mut kvs = open(&mut disk, "5");
    for i in 0..100 {
        insert_i32(&mut kvs, &mut disk, &i.to_string(), i as i32).unwrap();
    }
    assert_eq!(kvs.size(), 100);
}

#[test]
fn test_insert() {
    let path = "6";
    let mut disk = MemDisk::new();
    let mut kvs = open(&mut disk, path);
    assert_eq!(kvs.size(), 0);
    assert_eq!(kvs.path(), format!("{}{}", path, "/"));
    insert_i32(&mut kvs, &mut disk, "key", 1).unwrap();
    assert_eq!(kvs.size(), 1);
    assert_eq!(kvs.path(), format!("{}{}", path, "/"));
    remove(&mut kvs, &mut disk, "key").unwrap();
}

#[test]
#[should_panic(expected = r#"There is a key-value mapping stored already with the same key."#)]
fn test_insert_existing_key() {
    let path = "7";
    let mut disk = MemDisk::new();
    let mut kvs = open(&mut disk, path);
    assert_eq!(kvs.size(), 0);
    assert_eq!(kvs.path(), format!("{}{}", path, "/"));
    insert_i32(&mut kvs, &mut disk, "key", 1).map_err(|e| e.message()).unwrap();
    insert_i32(&mut kvs, &mut disk, "key", 2).map_err(|e| e.message()).unwrap();
}

#[test]
fn test_insert_custom_type() {
    let path = "8";
    let mut disk = MemDisk::new();
    let mut kvs = open(&mut disk, path);
    assert_eq!(kvs.size(), 0);
    assert_eq!(kvs.path(), format!("{}{}", path, "/"));
    insert(&mut kvs, &mut disk, "key", &point_json()).unwrap();
    assert_eq!(kvs.size(), 1);
}

#[test]
fn test_lookup_exists() {
    let path = "9";
    let mut disk = MemDisk::new();
    let mut kvs = open(&mut disk, path);
    assert_eq!(kvs.size(), 0);
    assert_eq!(kvs.path(), format!("{}{}", path, "/"));
    insert_i32(&mut kvs, &mut disk, "key", 1).unwrap();
    assert_eq!(kvs.size(), 1);
    assert_eq!(kvs.path(), format!("{}{}", path, "/"));
    let read = lookup(&kvs, &mut disk, "key").unwrap();
    assert_eq!(serde_json::from_str::<i32>(&read).unwrap(), 1);
}

#[test]
#[should_panic(expected = r#"No key-value mapping exists with this key."#)]
fn test_lookup_does_not_exist() {
    let path = "10";
    let mut disk = MemDisk::new();
    let kvs = open(&mut disk, path);
    assert_eq!(kvs.size(), 0);
    assert_eq!(kvs.path(), format!("{}{}", path, "/"));
    lookup(&kvs, &mut disk, "key").map_err(|e| e.message()).unwrap();
}

#[test]
#[should_panic(expected = r#"No key-value mapping exists with this key."#)]
fn test_lookup_removed() {
    let path = "11";
    let mut disk = MemDisk::new();
    let mut kvs = open(&mut disk, path);
    assert_eq!(kvs.size(), 0);
    assert_eq!(kvs.path(), format!("{}{}", path, "/"));
    insert_i32(&mut kvs, &mut disk, "key", 1).unwrap();
    assert_eq!(kvs.size(), 1);
    assert_eq!(kvs.path(), format!("{}{}", path, "/"));
    remove(&mut kvs, &mut disk, "key").unwrap();
    assert_eq!(kvs.size(), 0);
    lookup(&kvs, &mut disk, "key").map_err(|e| e.message()).unwrap();
}

#[test]
fn test_remove_custom_type() {
    let path = "12";
    let mut disk = MemDisk::new();
    let mut kvs = open(&mut disk, path);
    assert_eq!(kvs.size(), 0);
    assert_eq!(kvs.path(), format!("{}{}", path, "/"));
    let point = point_json();
    insert(&mut kvs, &mut disk, "key", &point).unwrap();
    assert_eq!(kvs.size(), 1);
    let read = remove(&mut kvs, &mut disk, "key").unwrap();
    assert_eq!(read, point);
    assert_eq!(kvs.size(), 0);
}

#[test]
#[should_panic(expected = r#"No key-value mapping exists with this key."#)]
fn test_remove_does_not_exist() {
    let path = "13";
    let mut disk = MemDisk::new();
    let mut kvs = open(&mut disk, path);
    assert_eq!(kvs.size(), 0);
    assert_eq!(kvs.path(), format!("{}{}", path, "/"));
    remove(&mut kvs, &mut disk, "key").map_err(|e| e.message()).unwrap();
}

#[test]
fn test_remove_delete_sub_dir() {
    let path = "14";
    let mut disk = MemDisk::new();
    let mut kvs = open(&mut disk, path);
    assert_eq!(kvs.size(), 0);
    assert_eq!(kvs.path(), format!("{}{}", path, "/"));
    insert_i32(&mut kvs, &mut disk, "key", 1).unwrap();
    // inject a second key into the dir
    let temp_file = "14/c0c1baf2fa/temp.key";
    disk.files.insert(String::from(temp_file), serde_json::to_string("temp").unwrap());
    remove(&mut kvs, &mut disk, "key").unwrap();
    assert_eq!(disk.dir_is_empty("14/c0c1baf2fa"), false);
    assert!(disk.has_entry("14/c0c1baf2fa"));
    assert!(disk.has_entry(temp_file));
}

#[test]
fn subdirectory_without_mapping_files_is_deleted() {
    let mut disk = MemDisk::new();
    let mut kvs = open(&mut disk, "21");
    insert_i32(&mut kvs, &mut disk, "key", 1).unwrap();
    disk.files.insert(String::from("21/c0c1baf2fa/notes.txt"), String::from("x"));
    remove(&mut kvs, &mut disk, "key").unwrap();
    assert!(!disk.has_entry("21/c0c1baf2fa"));
    assert!(!disk.has_entry("21/c0c1baf2fa/notes.txt"));
}

#[test]
fn opening_a_directory_named_like_a_key_counts_mappings() {
    let mut disk = MemDisk::new();
    let mut kvs = open(&mut disk, "s.key");
    insert_i32(&mut kvs, &mut disk, "key", 1).unwrap();
    let again = open(&mut disk, "s.key");
    assert_eq!(again.size(), 1);
    assert_eq!(again.path(), "s.key/");
}

#[test]
fn store_at_a_path_ending_in_a_wide_character() {
    let mut disk = MemDisk::new();
    let mut kvs = open(&mut disk, "é");
    assert_eq!(kvs.size(), 0);
    assert_eq!(kvs.path(), "é/");
    insert_i32(&mut kvs, &mut disk, "key", 3).unwrap();
    assert_eq!(lookup(&kvs, &mut disk, "key").unwrap(), "3");
}

#[test]
fn a_store_opened_earlier_removes_a_later_mapping() {
    let mut disk = MemDisk::new();
    let mut a = open(&mut disk, "22");
    let mut b = open(&mut disk, "22");
    insert_i32(&mut b, &mut disk, "key", 1).unwrap();
    assert_eq!(a.size(), 0);
    assert_eq!(remove(&mut a, &mut disk, "key").unwrap(), "1");
    assert_eq!(a.size(), 0);
    assert_eq!(lookup(&b, &mut disk, "key"), Err(StoreError::NotFound));
}

#[test]
fn remove_of_last_key_deletes_its_subdirectory() {
    let mut disk = MemDisk::new();
    let mut kvs = open(&mut disk, "15");
    insert_i32(&mut kvs, &mut disk, "key", 1).unwrap();
    assert!(disk.has_entry("15/c0c1baf2fa"));
    remove(&mut kvs, &mut disk, "key").unwrap();
    assert!(!disk.has_entry("15/c0c1baf2fa"));
    assert!(disk.files.is_empty());
}

#[test]
fn lookup_reads_back_what_insert_wrote() {
    let mut disk = MemDisk::new();
    let mut kvs = open(&mut disk, "16");
    insert(&mut kvs, &mut disk, "alpha", "\"first\"").unwrap();
    insert(&mut kvs, &mut disk, "beta", "\"second\"").unwrap();
    assert_eq!(lookup(&kvs, &mut disk, "alpha").unwrap(), "\"first\"");
    assert_eq!(lookup(&kvs, &mut disk, "beta").unwrap(), "\"second\"");
}

#[test]
fn second_insert_is_refused_and_keeps_the_first_value() {
    let mut disk = MemDisk::new();
    let mut kvs = open(&mut disk, "17");
    insert(&mut kvs, &mut disk, "k", "1").unwrap();
    assert_eq!(insert(&mut kvs, &mut disk, "k", "2"), Err(StoreError::AlreadyExists));
    assert_eq!(kvs.size(), 1);
    assert_eq!(lookup(&kvs, &mut disk, "k").unwrap(), "1");
}

#[test]
fn remove_returns_value_and_leaves_other_keys() {
    let mut disk = MemDisk::new();
    let mut kvs = open(&mut disk, "18");
    insert(&mut kvs, &mut disk, "a", "10").unwrap();
    insert(&mut kvs, &mut disk, "b", "20").unwrap();
    assert_eq!(remove(&mut kvs, &mut disk, "a").unwrap(), "10");
    assert_eq!(lookup(&kvs, &mut disk, "a"), Err(StoreError::NotFound));
    assert_eq!(lookup(&kvs, &mut disk, "b").unwrap(), "20");
    assert_eq!(kvs.size(), 1);
    assert_eq!(remove(&mut kvs, &mut disk, "a"), Err(StoreError::NotFound));
}

#[test]
fn reopening_counts_every_inserted_key() {
    let mut disk = MemDisk::new();
    let mut kvs = open(&mut disk, "19/");
    for i in 0..7 {
        insert(&mut kvs, &mut disk, &format!("k{}", i), "0").unwrap();
    }
    remove(&mut kvs, &mut disk, "k3").unwrap();
    let again = open(&mut disk, "19/");
    assert_eq!(again.size(), 6);
    assert_eq!(again.path(), "19/");
}

#[test]
fn reinsert_after_remove_succeeds() {
    let mut disk = MemDisk::new();
    let mut kvs = open(&mut disk, "20");
    insert(&mut kvs, &mut disk, "k", "1").unwrap();
    remove(&mut kvs, &mut disk, "k").unwrap();
    insert(&mut kvs, &mut disk, "k", "2").unwrap();
    assert_eq!(lookup(&kvs, &mut disk, "k").unwrap(), "2");
    assert_eq!(kvs.size(), 1);
}
