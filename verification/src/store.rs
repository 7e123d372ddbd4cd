//! The store itself: its state, where the files of a key live, and the plans
//! of its operations.

use vstd::prelude::*;

use crate::digest::{sha256_digest, sha256_hex};
use crate::paths::{
    combine_string,
    create_file_path,
    file_path,
    storage_dir,
    with_trailing_slash,
    is_ascii_char,
    directory_for,
    normalize_dir,
    ends_with,
    is_key_file,
    key_ext,
    value_ext,
};

verus! {

/// Why an operation on a key was refused.
#[derive(Debug, Clone, Copy, PartialEq, Eq, Structural)]
pub enum StoreError {
    /// `insert` found a mapping with the same key.
    AlreadyExists,
    /// `lookup` or `remove` found no mapping with the key.
    NotFound,
}

/// The message the store reports for an error.
pub open spec fn error_message(e: StoreError) -> Seq<char> {
    match e {
        StoreError::AlreadyExists => "There is a key-value mapping stored already with the same key."@,
        StoreError::NotFound => "No key-value mapping exists with this key."@,
    }
}

impl StoreError {
    /// The message that goes with this error.
    pub fn message(&self) -> (m: &'static str)
        ensures
            m@ == error_message(*self),
    {
        match self {
            StoreError::AlreadyExists => "There is a key-value mapping stored already with the same key.",
            StoreError::NotFound => "No key-value mapping exists with this key.",
        }
    }
}

/// How many characters of the digest name the subdirectory of a key.
pub open spec fn subdir_prefix_len() -> int {
    10
}

/// The files of one key, as paths.
pub struct EntryView {
    pub subdir: Seq<char>,
    pub key_file: Seq<char>,
    pub value_file: Seq<char>,
}

/// Where the store at `store_path` keeps the key whose digest is `digest`:
/// the subdirectory named by the store path and the first ten characters of
/// the digest, and in it the key file and the value file named by the whole
/// digest.
pub open spec fn entry_of(store_path: Seq<char>, digest: Seq<char>) -> EntryView {
    let subdir = store_path + digest.subrange(0, subdir_prefix_len());
    EntryView {
        subdir,
        key_file: file_path(subdir, digest, key_ext()),
        value_file: file_path(subdir, digest, value_ext()),
    }
}

/// Where the store at `store_path` keeps the key serialized as `serialized_key`.
pub open spec fn entry_for(store_path: Seq<char>, serialized_key: Seq<char>) -> EntryView {
    entry_of(store_path, sha256_hex(serialized_key))
}

/// The files of one key.
#[derive(Debug)]
pub struct EntryPaths {
    pub subdir: String,
    pub key_file: String,
    pub value_file: String,
}

impl View for EntryPaths {
    type V = EntryView;

    open spec fn view(&self) -> EntryView {
        EntryView { subdir: self.subdir@, key_file: self.key_file@, value_file: self.value_file@ }
    }
}

impl EntryPaths {
    /// The files of the key whose digest is `hashed_key`, in the store at
    /// `store_path`.
    ///
    /// The subdirectory takes the first ten bytes of the digest; they are the
    /// first ten characters, which must therefore take one byte each.
    pub fn from_digest(store_path: &str, hashed_key: &str) -> (res: EntryPaths)
        requires
            hashed_key@.len() >= subdir_prefix_len(),
            forall|i: int| 0 <= i < subdir_prefix_len() ==> is_ascii_char(#[trigger] hashed_key@[i]),
        ensures
            res@ == entry_of(store_path@, hashed_key@),
    {
        let first_ten = hashed_key.substring_char(0, 10);
        let subdir = combine_string(store_path, first_ten);
        proof {
            reveal_strlit(".key");
            reveal_strlit(".value");
            assert(".key"@ =~= key_ext());
            assert(".value"@ =~= value_ext());
        }
        let key_file = create_file_path(&subdir, hashed_key, ".key");
        let value_file = create_file_path(&subdir, hashed_key, ".value");
        EntryPaths { subdir, key_file, value_file }
    }
}

/// The number of paths among `paths` that name key files: whose names end in
/// `.key`.
pub open spec fn key_file_count(paths: Seq<Seq<char>>) -> nat
    decreases paths.len(),
{
    if paths.len() == 0 {
        0
    } else {
        key_file_count(paths.drop_last()) + if ends_with(paths.last(), key_ext()) {
            1nat
        } else {
            0nat
        }
    }
}

/// The paths, as text.
pub open spec fn path_views(paths: Seq<String>) -> Seq<Seq<char>> {
    paths.map_values(|p: String| p@)
}

/// How many of `paths` name key files.
pub fn count_key_files(paths: &Vec<String>) -> (count: usize)
    ensures
        count == key_file_count(path_views(paths@)),
{
    let mut count: usize = 0;
    let mut i: usize = 0;
    while i < paths.len()
        invariant
            i <= paths.len(),
            count <= i,
            count == key_file_count(path_views(paths@).take(i as int)),
        decreases paths.len() - i,
    {
        let found = is_key_file(paths[i].as_str());
        assert(path_views(paths@).take(i + 1).drop_last() =~= path_views(paths@).take(i as int));
        if found {
            count = count + 1;
        }
        i = i + 1;
    }
    assert(path_views(paths@).take(i as int) =~= path_views(paths@));
    count
}

/// The state of a store: the directory it lives in and how many mappings it
/// holds.
pub struct KVStoreView {
    pub size: nat,
    pub path: Seq<char>,
}

/// A key-value store whose mappings live in files under one directory.
#[derive(Debug)]
pub struct KVStore {
    /// The number of key-value mappings currently stored.
    size: usize,
    /// The directory under which the mappings are stored, ending in a slash.
    path: String,
}

impl View for KVStore {
    type V = KVStoreView;

    closed spec fn view(&self) -> KVStoreView {
        KVStoreView { size: self.size as nat, path: self.path@ }
    }
}

/// The directory that a store opened at `path` keeps, ending in a slash.
pub open spec fn store_dir(path: Seq<char>) -> Seq<char> {
    with_trailing_slash(storage_dir(path))
}

impl KVStore {
    /// A store with the given count and directory.
    pub fn from_parts(size: usize, path: String) -> (store: KVStore)
        ensures
            store@.size == size,
            store@.path == path@,
    {
        KVStore { size, path }
    }

    /// The store that opening `path` gives, where `files` are the paths of
    /// the entries found in the subdirectories of its directory: its
    /// directory is `path` (the current directory where `path` is empty)
    /// ending in a slash, and it counts one mapping for each key file among
    /// `files`.
    pub fn from_listing(path: &str, files: &Vec<String>) -> (store: KVStore)
        ensures
            store@.path == store_dir(path@),
            store@.size == key_file_count(path_views(files@)),
    {
        let dir = directory_for(path);
        let sanitized = normalize_dir(dir.as_str());
        let size = count_key_files(files);
        KVStore { size, path: sanitized }
    }

    /// The number of key-value mappings in the store.
    pub fn size(&self) -> (size: usize)
        ensures
            size == self@.size,
    {
        self.size
    }

    /// The directory of the store, ending in a slash.
    pub fn path(&self) -> (path: &str)
        ensures
            path@ == self@.path,
    {
        self.path.as_str()
    }

    /// The files of the key whose serialized form is `serialized_key`.
    pub fn locate(&self, serialized_key: &str) -> (entry: EntryPaths)
        ensures
            entry@ == entry_for(self@.path, serialized_key@),
    {
        let hashed = sha256_digest(serialized_key);
        assert forall|i: int| 0 <= i < subdir_prefix_len() implies is_ascii_char(#[trigger] hashed@[i]) by {
            assert(0 <= i < hashed@.len());
        }
        EntryPaths::from_digest(self.path.as_str(), hashed.as_str())
    }

    /// Counts a mapping that an insertion added.
    pub fn record_insert(&mut self)
        requires
            old(self)@.size < usize::MAX,
        ensures
            final(self)@.size == old(self)@.size + 1,
            final(self)@.path == old(self)@.path,
    {
        self.size = self.size + 1;
    }

    /// Uncounts a mapping that a removal took away; a count that is already
    /// zero (the mapping was stored after this store was opened, by another)
    /// stays zero.
    pub fn record_remove(&mut self)
        ensures
            final(self)@.size == if old(self)@.size > 0 {
                old(self)@.size - 1
            } else {
                0
            },
            final(self)@.path == old(self)@.path,
    {
        if self.size > 0 {
            self.size = self.size - 1;
        }
    }
}

} // verus!
