//! What the operations of the store promise of one another, on the model of
//! the disk: a lookup reads back what an insertion wrote, a second insertion
//! of a key is refused, a removal hands back the value and frees the key,
//! operations on one key leave every other key as it was, the steps keep the
//! disk a directory tree, and the count a store keeps moves as the count that
//! opening it would give.

use vstd::prelude::*;

use crate::disk::{
    Disk,
    FsStep,
    exists_at,
    is_under,
    is_child,
    is_tree,
    holds_mapping_files,
    step_ok,
    all_steps_ok,
    apply_step,
    apply_steps,
    first_read,
};
use crate::digest::{sha256_hex, is_hex_digest, is_lower_hex_digit};
use crate::plans::{insert_steps, lookup_steps, remove_steps, cleanup_steps};
use crate::paths::{ends_with, key_ext, value_ext, is_mapping_name, storage_dir};
use crate::store::{EntryView, StoreError, entry_of, entry_for, store_dir, subdir_prefix_len, key_file_count};

verus! {

/// The disk after inserting `key` with `value` at entry `e`, all steps
/// having succeeded, or the error the insertion answers.
pub open spec fn insert_outcome(d: Disk, e: EntryView, key: Seq<char>, value: Seq<char>) -> Result<
    Disk,
    StoreError,
> {
    match insert_steps(e, key, value, exists_at(d, e.subdir), exists_at(d, e.key_file)) {
        Ok(steps) => Ok(apply_steps(d, steps)),
        Err(err) => Err(err),
    }
}

/// The insertion of `key` with `value` at entry `e` is accepted and every
/// one of its steps succeeds on `d`.
pub open spec fn insert_completes(d: Disk, e: EntryView, key: Seq<char>, value: Seq<char>) -> bool {
    match insert_steps(e, key, value, exists_at(d, e.subdir), exists_at(d, e.key_file)) {
        Ok(steps) => all_steps_ok(d, steps),
        Err(_) => false,
    }
}

/// What looking entry `e` up gives: the contents of its value file (`None`
/// where that file cannot be read), or the error.
pub open spec fn lookup_outcome(d: Disk, e: EntryView) -> Result<Option<Seq<char>>, StoreError> {
    match lookup_steps(e, exists_at(d, e.subdir), exists_at(d, e.key_file)) {
        Ok(steps) => Ok(first_read(d, steps)),
        Err(err) => Err(err),
    }
}

/// The disk after the removal steps of entry `e`, before the cleanup.
pub open spec fn removal_disk(d: Disk, e: EntryView) -> Disk {
    apply_steps(d, remove_steps(e, exists_at(d, e.subdir), exists_at(d, e.key_file))->Ok_0)
}

/// The cleanup steps that follow the removal of entry `e`.
pub open spec fn removal_cleanup(d: Disk, e: EntryView) -> Seq<FsStep> {
    cleanup_steps(e, !holds_mapping_files(removal_disk(d, e), e.subdir))
}

/// What removing entry `e` gives, all steps having succeeded: the contents
/// read from its value file and the disk after the removal and the cleanup of
/// the subdirectory, or the error.
pub open spec fn remove_outcome(d: Disk, e: EntryView) -> Result<(Option<Seq<char>>, Disk), StoreError> {
    match remove_steps(e, exists_at(d, e.subdir), exists_at(d, e.key_file)) {
        Ok(steps) => Ok(
            (first_read(d, steps), apply_steps(removal_disk(d, e), removal_cleanup(d, e))),
        ),
        Err(err) => Err(err),
    }
}

/// The removal of entry `e` is accepted and every one of its steps, the
/// cleanup included, succeeds on `d`.
pub open spec fn remove_completes(d: Disk, e: EntryView) -> bool {
    match remove_steps(e, exists_at(d, e.subdir), exists_at(d, e.key_file)) {
        Ok(steps) => all_steps_ok(d, steps) && all_steps_ok(removal_disk(d, e), removal_cleanup(d, e)),
        Err(_) => false,
    }
}

proof fn lemma_apply_none(d: Disk)
    ensures
        apply_steps(d, Seq::<FsStep>::empty()) == d,
{
}

proof fn lemma_apply_one(d: Disk, a: FsStep)
    ensures
        apply_steps(d, seq![a]) == apply_step(d, a),
{
    assert(seq![a].drop_first() =~= Seq::<FsStep>::empty());
    lemma_apply_none(apply_step(d, a));
}

proof fn lemma_apply_two(d: Disk, a: FsStep, b: FsStep)
    ensures
        apply_steps(d, seq![a, b]) == apply_step(apply_step(d, a), b),
{
    assert(seq![a, b].drop_first() =~= seq![b]);
    lemma_apply_one(apply_step(d, a), b);
}

proof fn lemma_apply_three(d: Disk, a: FsStep, b: FsStep, c: FsStep)
    ensures
        apply_steps(d, seq![a, b, c]) == apply_step(apply_step(apply_step(d, a), b), c),
{
    assert(seq![a, b, c].drop_first() =~= seq![b, c]);
    lemma_apply_two(apply_step(d, a), b, c);
}

proof fn lemma_read_one(d: Disk, p: Seq<char>)
    ensures
        first_read(d, seq![FsStep::ReadFile(p)]) == if d.files.contains_key(p) {
            Some(d.files[p])
        } else {
            None
        },
{
}

proof fn lemma_read_in_removal(d: Disk, k: Seq<char>, v: Seq<char>)
    ensures
        first_read(d, seq![FsStep::RemoveFile(k), FsStep::ReadFile(v), FsStep::RemoveFile(v)])
            == first_read(apply_step(d, FsStep::RemoveFile(k)), seq![FsStep::ReadFile(v), FsStep::RemoveFile(v)]),
        first_read(apply_step(d, FsStep::RemoveFile(k)), seq![FsStep::ReadFile(v), FsStep::RemoveFile(v)])
            == if apply_step(d, FsStep::RemoveFile(k)).files.contains_key(v) {
            Some(apply_step(d, FsStep::RemoveFile(k)).files[v])
        } else {
            None
        },
{
    assert(seq![FsStep::RemoveFile(k), FsStep::ReadFile(v), FsStep::RemoveFile(v)].drop_first()
        =~= seq![FsStep::ReadFile(v), FsStep::RemoveFile(v)]);
}

proof fn lemma_ok_none(d: Disk)
    ensures
        all_steps_ok(d, Seq::<FsStep>::empty()),
{
}

proof fn lemma_ok_one(d: Disk, a: FsStep)
    ensures
        all_steps_ok(d, seq![a]) == step_ok(d, a),
{
    assert(seq![a].drop_first() =~= Seq::<FsStep>::empty());
    lemma_ok_none(apply_step(d, a));
}

proof fn lemma_ok_two(d: Disk, a: FsStep, b: FsStep)
    ensures
        all_steps_ok(d, seq![a, b]) == (step_ok(d, a) && step_ok(apply_step(d, a), b)),
{
    assert(seq![a, b].drop_first() =~= seq![b]);
    lemma_ok_one(apply_step(d, a), b);
}

proof fn lemma_ok_three(d: Disk, a: FsStep, b: FsStep, c: FsStep)
    ensures
        all_steps_ok(d, seq![a, b, c]) == (step_ok(d, a) && step_ok(apply_step(d, a), b) && step_ok(
            apply_step(apply_step(d, a), b),
            c,
        )),
{
    assert(seq![a, b, c].drop_first() =~= seq![b, c]);
    lemma_ok_two(apply_step(d, a), b, c);
}

/// Where the digest is hexadecimal, the key file and the value file of an
/// entry lie directly in its subdirectory, the key file's name ends in
/// `.key`, and the value file's name is that of a value file, not of a key
/// file.
pub proof fn lemma_entry_children(store_path: Seq<char>, digest: Seq<char>)
    requires
        is_hex_digest(digest),
    ensures
        is_child(entry_of(store_path, digest).key_file, entry_of(store_path, digest).subdir),
        is_child(entry_of(store_path, digest).value_file, entry_of(store_path, digest).subdir),
        ends_with(entry_of(store_path, digest).key_file, key_ext()),
        ends_with(entry_of(store_path, digest).value_file, value_ext()),
        !ends_with(entry_of(store_path, digest).value_file, key_ext()),
        is_mapping_name(entry_of(store_path, digest).key_file),
        is_mapping_name(entry_of(store_path, digest).value_file),
{
    let e = entry_of(store_path, digest);
    lemma_entry_paths_distinct(store_path, digest);
    let base = e.subdir.len() + 1;
    assert forall|i: int| base <= i < e.key_file.len() implies e.key_file[i] != '/' by {
        if i < base + digest.len() {
            assert(e.key_file[i] == digest[i - base]);
            assert(is_lower_hex_digit(digest[i - base]));
        } else {
            assert(e.key_file[i] == key_ext()[i - base - digest.len()]);
        }
    }
    assert forall|i: int| base <= i < e.value_file.len() implies e.value_file[i] != '/' by {
        if i < base + digest.len() {
            assert(e.value_file[i] == digest[i - base]);
            assert(is_lower_hex_digit(digest[i - base]));
        } else {
            assert(e.value_file[i] == value_ext()[i - base - digest.len()]);
        }
    }
    assert(e.key_file.subrange(e.key_file.len() - 4, e.key_file.len() as int) =~= key_ext());
    assert(e.value_file.subrange(e.value_file.len() - 6, e.value_file.len() as int) =~= value_ext());
    assert(e.value_file.subrange(e.value_file.len() - 4, e.value_file.len() as int)[3] == 'e');
}

/// Being inside a directory that is inside another is being inside that
/// other.
proof fn lemma_under_trans(r: Seq<char>, q: Seq<char>, p: Seq<char>)
    requires
        is_under(r, q),
        is_under(q, p),
    ensures
        is_under(r, p),
{
    assert forall|i: int| 0 <= i < p.len() + 1 implies r.subrange(0, p.len() + 1int)[i] == (p + seq!['/'])[i] by {
        assert(r.subrange(0, q.len() + 1int)[i] == (q + seq!['/'])[i]);
        assert(q.subrange(0, p.len() + 1int)[i] == (p + seq!['/'])[i]);
    }
    assert(r.subrange(0, p.len() + 1int) =~= p + seq!['/']);
}

/// A step that succeeds keeps the disk a directory tree.
pub proof fn lemma_step_keeps_tree(d: Disk, s: FsStep)
    requires
        is_tree(d),
        step_ok(d, s),
    ensures
        is_tree(apply_step(d, s)),
{
    let d2 = apply_step(d, s);
    match s {
        FsStep::RemoveDirAll(p) => {
            assert forall|r: Seq<char>, q: Seq<char>| exists_at(d2, r) && is_under(r, q) implies d2.dirs.contains(q) by {
                assert(exists_at(d, r));
                assert(d.dirs.contains(q));
                if q == p {
                } else if is_under(q, p) {
                    lemma_under_trans(r, q, p);
                }
            }
        },
        FsStep::CreateDir(p) => {
            assert forall|r: Seq<char>, q: Seq<char>| exists_at(d2, r) && is_under(r, q) implies d2.dirs.contains(q) by {
                if r != p {
                    assert(exists_at(d, r));
                }
            }
        },
        FsStep::WriteFile(p, c) => {
            assert forall|r: Seq<char>, q: Seq<char>| exists_at(d2, r) && is_under(r, q) implies d2.dirs.contains(q) by {
                if r != p {
                    assert(exists_at(d, r));
                }
            }
        },
        _ => {
            assert forall|r: Seq<char>, q: Seq<char>| exists_at(d2, r) && is_under(r, q) implies d2.dirs.contains(q) by {
                assert(exists_at(d, r));
            }
        },
    }
}

/// Steps that all succeed keep the disk a directory tree: the store's
/// operations never leave a file inside a file or a path that is both.
pub proof fn lemma_steps_keep_tree(d: Disk, steps: Seq<FsStep>)
    requires
        is_tree(d),
        all_steps_ok(d, steps),
    ensures
        is_tree(apply_steps(d, steps)),
    decreases steps.len(),
{
    if steps.len() > 0 {
        lemma_step_keeps_tree(d, steps[0]);
        lemma_steps_keep_tree(apply_step(d, steps[0]), steps.drop_first());
    }
}

/// The key file, the value file and the subdirectory of an entry are three
/// different paths, and the two files lie inside the subdirectory.
pub proof fn lemma_entry_paths_distinct(store_path: Seq<char>, digest: Seq<char>)
    ensures
        entry_of(store_path, digest).key_file != entry_of(store_path, digest).value_file,
        entry_of(store_path, digest).subdir != entry_of(store_path, digest).key_file,
        entry_of(store_path, digest).subdir != entry_of(store_path, digest).value_file,
        is_under(entry_of(store_path, digest).key_file, entry_of(store_path, digest).subdir),
        is_under(entry_of(store_path, digest).value_file, entry_of(store_path, digest).subdir),
{
    let e = entry_of(store_path, digest);
    assert(e.key_file.len() != e.value_file.len());
    assert(e.key_file.subrange(0, e.subdir.len() + 1int) =~= e.subdir + seq!['/']);
    assert(e.value_file.subrange(0, e.subdir.len() + 1int) =~= e.subdir + seq!['/']);
}

/// Two digests of one length that differ give entries whose files are all
/// different paths, and where their subdirectories differ, nothing of the
/// second entry lies inside the subdirectory of the first.
proof fn lemma_other_entry_distinct(store_path: Seq<char>, h1: Seq<char>, h2: Seq<char>)
    requires
        h1.len() == h2.len(),
        h1.len() >= subdir_prefix_len(),
        h1 != h2,
    ensures
        ({
            let e1 = entry_of(store_path, h1);
            let e2 = entry_of(store_path, h2);
            &&& e1.key_file != e2.key_file
            &&& e1.key_file != e2.value_file
            &&& e1.value_file != e2.key_file
            &&& e1.value_file != e2.value_file
            &&& e1.subdir != e2.key_file
            &&& e1.subdir != e2.value_file
            &&& e2.subdir != e1.key_file
            &&& e2.subdir != e1.value_file
            &&& e1.subdir.len() == e2.subdir.len()
            &&& e1.subdir != e2.subdir ==> {
                &&& !is_under(e2.key_file, e1.subdir)
                &&& !is_under(e2.value_file, e1.subdir)
                &&& !is_under(e2.subdir, e1.subdir)
            }
        }),
{
    let e1 = entry_of(store_path, h1);
    let e2 = entry_of(store_path, h2);
    assert(!(h1 =~= h2));
    let j = choose|j: int| 0 <= j < h1.len() && h1[j] != h2[j];
    let off = store_path.len() + subdir_prefix_len() + 1;
    assert(e1.key_file[off + j] == h1[j]);
    assert(e2.key_file[off + j] == h2[j]);
    assert(e1.value_file[off + j] == h1[j]);
    assert(e2.value_file[off + j] == h2[j]);
    if e1.subdir != e2.subdir {
        assert(!(e1.subdir =~= e2.subdir));
        let i = choose|i: int| 0 <= i < e1.subdir.len() && e1.subdir[i] != e2.subdir[i];
        if is_under(e2.key_file, e1.subdir) {
            assert(e2.key_file.subrange(0, e1.subdir.len() + 1int)[i] == e2.subdir[i]);
            assert((e1.subdir + seq!['/'])[i] == e1.subdir[i]);
        }
        if is_under(e2.value_file, e1.subdir) {
            assert(e2.value_file.subrange(0, e1.subdir.len() + 1int)[i] == e2.subdir[i]);
            assert((e1.subdir + seq!['/'])[i] == e1.subdir[i]);
        }
    }
}

/// An accepted insertion writes exactly the two files of the entry: after
/// it, the key file holds `key` and the value file holds `value`, every
/// other file is as it was, and the only directory that may have been added
/// is the subdirectory.
pub proof fn lemma_insert_effect(d: Disk, e: EntryView, key: Seq<char>, value: Seq<char>)
    requires
        insert_outcome(d, e, key, value) is Ok,
        e.key_file != e.value_file,
        e.subdir != e.key_file,
        e.subdir != e.value_file,
    ensures
        ({
            let d2 = insert_outcome(d, e, key, value)->Ok_0;
            &&& exists_at(d2, e.subdir)
            &&& d2.files.contains_key(e.key_file)
            &&& d2.files[e.key_file] == key
            &&& d2.files.contains_key(e.value_file)
            &&& d2.files[e.value_file] == value
            &&& d2.dirs == d.dirs || d2.dirs == d.dirs.insert(e.subdir)
            &&& d2.files == d.files.insert(e.key_file, key).insert(e.value_file, value)
        }),
{
    let wk = FsStep::WriteFile(e.key_file, key);
    let wv = FsStep::WriteFile(e.value_file, value);
    if exists_at(d, e.subdir) {
        lemma_apply_two(d, wk, wv);
    } else {
        lemma_apply_three(d, FsStep::CreateDir(e.subdir), wk, wv);
    }
}


/// A lookup reads back what an insertion wrote: once inserting the
/// serialized `key` with the serialized `value` has been accepted, looking
/// `key` up in the same store reads `value`.
pub proof fn lemma_lookup_after_insert(d: Disk, store_path: Seq<char>, key: Seq<char>, value: Seq<char>)
    requires
        insert_outcome(d, entry_for(store_path, key), key, value) is Ok,
    ensures
        lookup_outcome(
            insert_outcome(d, entry_for(store_path, key), key, value)->Ok_0,
            entry_for(store_path, key),
        ) == Ok::<Option<Seq<char>>, StoreError>(Some(value)),
{
    let e = entry_for(store_path, key);
    lemma_entry_paths_distinct(store_path, sha256_hex(key));
    lemma_insert_effect(d, e, key, value);
    let d2 = insert_outcome(d, e, key, value)->Ok_0;
    lemma_read_one(d2, e.value_file);
}

/// A reopened store retrieves what an earlier store at the same path
/// inserted: two stores opened at `path` keep the same directory (that of
/// `from_listing`), so after an insertion through one, a lookup through the
/// other reads the value.
pub proof fn lemma_lookup_after_reopen(d: Disk, path: Seq<char>, key: Seq<char>, value: Seq<char>)
    requires
        insert_outcome(d, entry_for(store_dir(path), key), key, value) is Ok,
    ensures
        lookup_outcome(
            insert_outcome(d, entry_for(store_dir(path), key), key, value)->Ok_0,
            entry_for(store_dir(path), key),
        ) == Ok::<Option<Seq<char>>, StoreError>(Some(value)),
{
    lemma_lookup_after_insert(d, store_dir(path), key, value);
}

/// A key is inserted once: once inserting `key` has been accepted,
/// inserting it again, with any value, is refused as already existing.
pub proof fn lemma_insert_twice_refused(
    d: Disk,
    store_path: Seq<char>,
    key: Seq<char>,
    value: Seq<char>,
    other_value: Seq<char>,
)
    requires
        insert_outcome(d, entry_for(store_path, key), key, value) is Ok,
    ensures
        insert_outcome(
            insert_outcome(d, entry_for(store_path, key), key, value)->Ok_0,
            entry_for(store_path, key),
            key,
            other_value,
        ) == Err::<Disk, StoreError>(StoreError::AlreadyExists),
{
    let e = entry_for(store_path, key);
    lemma_entry_paths_distinct(store_path, sha256_hex(key));
    lemma_insert_effect(d, e, key, value);
}

/// A removal hands back the value a lookup reads: where looking the key of
/// digest `digest` up reads `value`, removing it is accepted and reads
/// `value` too.
pub proof fn lemma_remove_returns_looked_up_value(
    d: Disk,
    store_path: Seq<char>,
    digest: Seq<char>,
    value: Seq<char>,
)
    requires
        lookup_outcome(d, entry_of(store_path, digest)) == Ok::<Option<Seq<char>>, StoreError>(
            Some(value),
        ),
    ensures
        remove_outcome(d, entry_of(store_path, digest)) is Ok,
        remove_outcome(d, entry_of(store_path, digest))->Ok_0.0 == Some(value),
{
    let e = entry_of(store_path, digest);
    lemma_entry_paths_distinct(store_path, digest);
    lemma_read_one(d, e.value_file);
    lemma_read_in_removal(d, e.key_file, e.value_file);
}

/// A removal that succeeds frees the key: afterwards a lookup finds no
/// mapping, a second removal finds none either, and an insertion at the
/// entry, of any serialized key and value, is accepted.
pub proof fn lemma_removal_frees_key(
    d: Disk,
    store_path: Seq<char>,
    digest: Seq<char>,
    key: Seq<char>,
    value: Seq<char>,
)
    requires
        is_tree(d),
        remove_completes(d, entry_of(store_path, digest)),
    ensures
        lookup_outcome(remove_outcome(d, entry_of(store_path, digest))->Ok_0.1, entry_of(store_path, digest))
            == Err::<Option<Seq<char>>, StoreError>(StoreError::NotFound),
        remove_outcome(remove_outcome(d, entry_of(store_path, digest))->Ok_0.1, entry_of(store_path, digest))
            == Err::<(Option<Seq<char>>, Disk), StoreError>(StoreError::NotFound),
        insert_outcome(
            remove_outcome(d, entry_of(store_path, digest))->Ok_0.1,
            entry_of(store_path, digest),
            key,
            value,
        ) is Ok,
{
    let e = entry_of(store_path, digest);
    lemma_entry_paths_distinct(store_path, digest);
    let rk = FsStep::RemoveFile(e.key_file);
    let rd = FsStep::ReadFile(e.value_file);
    let rv = FsStep::RemoveFile(e.value_file);
    lemma_apply_three(d, rk, rd, rv);
    lemma_ok_three(d, rk, rd, rv);
    assert(d.files.contains_key(e.key_file));
    assert(!d.dirs.contains(e.key_file));
    let d1 = removal_disk(d, e);
    assert(!exists_at(d1, e.key_file));
    let drop_subdir = !holds_mapping_files(d1, e.subdir);
    if drop_subdir {
        lemma_apply_one(d1, FsStep::RemoveDirAll(e.subdir));
    } else {
        lemma_apply_none(d1);
    }
    let d3 = apply_steps(d1, removal_cleanup(d, e));
    assert(!exists_at(d3, e.key_file));
}

/// Removing right after an insertion reads what the insertion wrote and
/// leaves the key unfound: once inserting `key` with `value` has completed,
/// removing `key` is accepted, reads `value`, and a lookup of `key`
/// afterwards finds no mapping.
pub proof fn lemma_remove_after_insert(d: Disk, store_path: Seq<char>, key: Seq<char>, value: Seq<char>)
    requires
        insert_completes(d, entry_for(store_path, key), key, value),
    ensures
        remove_outcome(insert_outcome(d, entry_for(store_path, key), key, value)->Ok_0, entry_for(store_path, key)) is Ok,
        remove_outcome(insert_outcome(d, entry_for(store_path, key), key, value)->Ok_0, entry_for(store_path, key))->Ok_0.0
            == Some(value),
        lookup_outcome(
            remove_outcome(insert_outcome(d, entry_for(store_path, key), key, value)->Ok_0, entry_for(store_path, key))->Ok_0.1,
            entry_for(store_path, key),
        ) == Err::<Option<Seq<char>>, StoreError>(StoreError::NotFound),
{
    let e = entry_for(store_path, key);
    lemma_entry_paths_distinct(store_path, sha256_hex(key));
    lemma_insert_effect(d, e, key, value);
    let wk = FsStep::WriteFile(e.key_file, key);
    let wv = FsStep::WriteFile(e.value_file, value);
    if exists_at(d, e.subdir) {
        lemma_ok_two(d, wk, wv);
    } else {
        lemma_ok_three(d, FsStep::CreateDir(e.subdir), wk, wv);
    }
    assert(!d.dirs.contains(e.key_file));
    let d2 = insert_outcome(d, e, key, value)->Ok_0;
    assert(!d2.dirs.contains(e.key_file));
    lemma_lookup_after_insert(d, store_path, key, value);
    lemma_remove_returns_looked_up_value(d2, store_path, sha256_hex(key), value);
    let rk = FsStep::RemoveFile(e.key_file);
    let rd = FsStep::ReadFile(e.value_file);
    let rv = FsStep::RemoveFile(e.value_file);
    lemma_apply_three(d2, rk, rd, rv);
    let d1 = removal_disk(d2, e);
    assert(!exists_at(d1, e.key_file));
    let drop_subdir = !holds_mapping_files(d1, e.subdir);
    if drop_subdir {
        lemma_apply_one(d1, FsStep::RemoveDirAll(e.subdir));
    } else {
        lemma_apply_none(d1);
    }
    let d3 = apply_steps(d1, removal_cleanup(d2, e));
    assert(!exists_at(d3, e.key_file));
}

/// An insertion leaves every other key as it was: on a directory tree,
/// inserting a key whose digest is `digest` does not change what looking up
/// the key with another digest gives.
pub proof fn lemma_insert_keeps_other_keys(
    d: Disk,
    store_path: Seq<char>,
    digest: Seq<char>,
    key: Seq<char>,
    value: Seq<char>,
    other_digest: Seq<char>,
)
    requires
        is_tree(d),
        is_hex_digest(digest),
        is_hex_digest(other_digest),
        digest != other_digest,
        insert_outcome(d, entry_of(store_path, digest), key, value) is Ok,
    ensures
        lookup_outcome(
            insert_outcome(d, entry_of(store_path, digest), key, value)->Ok_0,
            entry_of(store_path, other_digest),
        ) == lookup_outcome(d, entry_of(store_path, other_digest)),
{
    let e1 = entry_of(store_path, digest);
    let e2 = entry_of(store_path, other_digest);
    lemma_entry_paths_distinct(store_path, digest);
    lemma_entry_paths_distinct(store_path, other_digest);
    lemma_other_entry_distinct(store_path, digest, other_digest);
    lemma_insert_effect(d, e1, key, value);
    let d2 = insert_outcome(d, e1, key, value)->Ok_0;
    assert(exists_at(d2, e2.key_file) == exists_at(d, e2.key_file));
    if exists_at(d, e2.key_file) {
        assert(d.dirs.contains(e2.subdir));
        assert(exists_at(d2, e2.subdir));
        lemma_read_one(d, e2.value_file);
        lemma_read_one(d2, e2.value_file);
    }
}

/// A removal leaves every other key as it was: removing the key whose
/// digest is `digest`, with the cleanup of its subdirectory, does not change
/// what looking up the key with another digest gives.
pub proof fn lemma_remove_keeps_other_keys(
    d: Disk,
    store_path: Seq<char>,
    digest: Seq<char>,
    other_digest: Seq<char>,
)
    requires
        is_hex_digest(digest),
        is_hex_digest(other_digest),
        digest != other_digest,
        remove_outcome(d, entry_of(store_path, digest)) is Ok,
    ensures
        lookup_outcome(remove_outcome(d, entry_of(store_path, digest))->Ok_0.1, entry_of(store_path, other_digest))
            == lookup_outcome(d, entry_of(store_path, other_digest)),
{
    let e1 = entry_of(store_path, digest);
    let e2 = entry_of(store_path, other_digest);
    lemma_entry_paths_distinct(store_path, digest);
    lemma_entry_paths_distinct(store_path, other_digest);
    lemma_entry_children(store_path, other_digest);
    lemma_other_entry_distinct(store_path, digest, other_digest);
    let rk = FsStep::RemoveFile(e1.key_file);
    let rd = FsStep::ReadFile(e1.value_file);
    let rv = FsStep::RemoveFile(e1.value_file);
    lemma_apply_three(d, rk, rd, rv);
    let d1 = removal_disk(d, e1);
    assert(d1.dirs == d.dirs);
    assert(d1.files == d.files.remove(e1.key_file).remove(e1.value_file));
    let drop_subdir = !holds_mapping_files(d1, e1.subdir);
    if drop_subdir {
        lemma_apply_one(d1, FsStep::RemoveDirAll(e1.subdir));
    } else {
        lemma_apply_none(d1);
    }
    let d3 = apply_steps(d1, removal_cleanup(d, e1));
    if e1.subdir == e2.subdir {
        if exists_at(d, e2.key_file) {
            assert(exists_at(d1, e2.key_file));
            assert(is_child(e2.key_file, e1.subdir));
            assert(!drop_subdir);
            assert(d3 == d1);
            assert(exists_at(d3, e2.subdir) == exists_at(d, e2.subdir));
            lemma_read_one(d, e2.value_file);
            lemma_read_one(d3, e2.value_file);
        } else {
            assert(!exists_at(d3, e2.key_file));
        }
    } else {
        assert(exists_at(d3, e2.key_file) == exists_at(d, e2.key_file));
        assert(exists_at(d3, e2.subdir) == exists_at(d, e2.subdir));
        assert(d3.files.contains_key(e2.value_file) == d.files.contains_key(e2.value_file));
        lemma_read_one(d, e2.value_file);
        lemma_read_one(d3, e2.value_file);
    }
}

/// One component of a path: not empty, and without a slash.
pub open spec fn is_component(s: Seq<char>) -> bool {
    s.len() > 0 && forall|i: int| 0 <= i < s.len() ==> s[i] != '/'
}

/// `p` names an entry of a subdirectory of the directory `root` (a path
/// ending in a slash): `root`, a component, a slash, a component.
pub open spec fn is_listed_under(p: Seq<char>, root: Seq<char>) -> bool {
    exists|a: Seq<char>, b: Seq<char>|
        is_component(a) && is_component(b) && p == root + a + seq!['/'] + b
}

/// The entries of the subdirectories of `root` on `d`: what opening a store
/// there lists.
pub open spec fn listed_entries(d: Disk, root: Seq<char>) -> Set<Seq<char>> {
    Set::new(|p: Seq<char>| exists_at(d, p) && is_listed_under(p, root))
}

/// The listed entries whose names end in `.key`: the mappings that opening
/// a store at `root` counts.
pub open spec fn counted_entries(d: Disk, root: Seq<char>) -> Set<Seq<char>> {
    Set::new(|p: Seq<char>| exists_at(d, p) && is_listed_under(p, root) && ends_with(p, key_ext()))
}

/// A disk with finitely many entries.
pub open spec fn is_finite_disk(d: Disk) -> bool {
    d.dirs.finite() && d.files.dom().finite()
}

proof fn lemma_counted_finite(d: Disk, root: Seq<char>)
    requires
        is_finite_disk(d),
    ensures
        counted_entries(d, root).finite(),
{
    broadcast use vstd::set::group_set_axioms;
    vstd::set_lib::lemma_set_subset_finite(d.dirs + d.files.dom(), counted_entries(d, root));
}

/// Counting the key files in a listing without repeats counts the key files
/// of its set.
proof fn lemma_count_of_distinct(paths: Seq<Seq<char>>)
    requires
        paths.no_duplicates(),
    ensures
        key_file_count(paths) == paths.to_set().filter(|p: Seq<char>| ends_with(p, key_ext())).len(),
    decreases paths.len(),
{
    broadcast use vstd::set::group_set_axioms;
    broadcast use vstd::seq_lib::seq_to_set_is_finite;
    let f = |p: Seq<char>| ends_with(p, key_ext());
    if paths.len() == 0 {
        assert(paths.to_set().filter(f) =~= Set::<Seq<char>>::empty());
    } else {
        let rest = paths.drop_last();
        let x = paths.last();
        assert(rest.no_duplicates()) by {
            assert forall|i: int, j: int| 0 <= i < rest.len() && 0 <= j < rest.len() && i != j implies rest[i]
                != rest[j] by {
                assert(rest[i] == paths[i] && rest[j] == paths[j]);
            }
        }
        lemma_count_of_distinct(rest);
        assert(paths.to_set() =~= rest.to_set().insert(x)) by {
            assert forall|p: Seq<char>| paths.to_set().contains(p) implies rest.to_set().insert(x).contains(p) by {
                let i = choose|i: int| 0 <= i < paths.len() && paths[i] == p;
                if i < paths.len() - 1 {
                    assert(rest[i] == p);
                }
            }
            assert forall|p: Seq<char>| rest.to_set().contains(p) implies paths.to_set().contains(p) by {
                let i = choose|i: int| 0 <= i < rest.len() && rest[i] == p;
                assert(paths[i] == p);
            }
            assert(paths[paths.len() - 1] == x);
        }
        assert(!rest.to_set().contains(x)) by {
            if rest.to_set().contains(x) {
                let i = choose|i: int| 0 <= i < rest.len() && rest[i] == x;
                assert(paths[i] == paths[paths.len() - 1]);
            }
        }
        if f(x) {
            assert(paths.to_set().filter(f) =~= rest.to_set().filter(f).insert(x));
        } else {
            assert(paths.to_set().filter(f) =~= rest.to_set().filter(f));
        }
    }
}

/// Opening counts the mappings on disk: where the files handed to the store
/// list every entry of the subdirectories of `root` once, the number of key
/// files among them (the size the opened store starts with) is the number of
/// counted entries on the disk.
pub proof fn lemma_open_counts_entries(d: Disk, root: Seq<char>, listing: Seq<Seq<char>>)
    requires
        listing.no_duplicates(),
        listing.to_set() == listed_entries(d, root),
    ensures
        key_file_count(listing) == counted_entries(d, root).len(),
{
    lemma_count_of_distinct(listing);
    assert(listing.to_set().filter(|p: Seq<char>| ends_with(p, key_ext())) =~= counted_entries(d, root));
}

/// The key file of an entry is listed and counted, and its subdirectory is
/// not listed, where the digest is hexadecimal.
proof fn lemma_entry_listing(root: Seq<char>, digest: Seq<char>)
    requires
        is_hex_digest(digest),
    ensures
        is_listed_under(entry_of(root, digest).key_file, root),
        !is_listed_under(entry_of(root, digest).subdir, root),
{
    let e = entry_of(root, digest);
    let a = digest.subrange(0, subdir_prefix_len());
    let b = digest + key_ext();
    assert(is_component(a)) by {
        assert forall|i: int| 0 <= i < a.len() implies a[i] != '/' by {
            assert(a[i] == digest[i]);
            assert(is_lower_hex_digit(digest[i]));
        }
    }
    assert(is_component(b)) by {
        assert forall|i: int| 0 <= i < b.len() implies b[i] != '/' by {
            if i < digest.len() {
                assert(b[i] == digest[i]);
                assert(is_lower_hex_digit(digest[i]));
            }
        }
    }
    assert(e.key_file =~= root + a + seq!['/'] + b);
    if is_listed_under(e.subdir, root) {
        let (a2, b2) = choose|a2: Seq<char>, b2: Seq<char>|
            is_component(a2) && is_component(b2) && e.subdir == root + a2 + seq!['/'] + b2;
        let k: int = root.len() + a2.len() as int;
        assert((root + a2 + seq!['/'] + b2)[k] == '/');
        assert(e.subdir[k] == digest[a2.len() as int]);
        assert(is_lower_hex_digit(digest[a2.len() as int]));
    }
}

/// An entry listed under `root` and lying in the subdirectory of an entry
/// lies directly in that subdirectory.
proof fn lemma_listed_in_subdir_is_child(root: Seq<char>, digest: Seq<char>, p: Seq<char>)
    requires
        is_hex_digest(digest),
        is_listed_under(p, root),
        is_under(p, entry_of(root, digest).subdir),
    ensures
        is_child(p, entry_of(root, digest).subdir),
{
    let e = entry_of(root, digest);
    let (a, b) = choose|a: Seq<char>, b: Seq<char>|
        is_component(a) && is_component(b) && p == root + a + seq!['/'] + b;
    let n = root.len() as int;
    assert(p.subrange(0, e.subdir.len() + 1int) == e.subdir + seq!['/']);
    if a.len() < 10 {
        let k = n + a.len();
        assert(p[k] == (root + a + seq!['/'] + b)[k]);
        assert(p[k] == '/');
        assert(p.subrange(0, e.subdir.len() + 1int)[k] == (e.subdir + seq!['/'])[k]);
        assert(e.subdir[k] == digest[a.len() as int]);
        assert(is_lower_hex_digit(digest[a.len() as int]));
    } else if a.len() > 10 {
        let k = n + 10;
        assert(p[k] == a[10]);
        assert(p.subrange(0, e.subdir.len() + 1int)[k] == (e.subdir + seq!['/'])[k]);
    }
    assert forall|i: int| e.subdir.len() + 1 <= i < p.len() implies p[i] != '/' by {
        assert(p[i] == b[i - n - a.len() - 1]);
    }
}

/// The count a store keeps follows an insertion: on a finite directory
/// tree where `size` is the count that opening the store at `root` would
/// give, an accepted insertion adds one counted mapping, as `record_insert`
/// adds one to `size`; a refused one takes no step and `size` stays.
#[verifier::rlimit(30)]
pub proof fn lemma_insert_keeps_count(
    d: Disk,
    root: Seq<char>,
    digest: Seq<char>,
    key: Seq<char>,
    value: Seq<char>,
    size: nat,
)
    requires
        is_tree(d),
        is_finite_disk(d),
        is_hex_digest(digest),
        size == counted_entries(d, root).len(),
    ensures
        insert_outcome(d, entry_of(root, digest), key, value) is Ok ==> {
            &&& is_finite_disk(insert_outcome(d, entry_of(root, digest), key, value)->Ok_0)
            &&& counted_entries(insert_outcome(d, entry_of(root, digest), key, value)->Ok_0, root).len()
                == size + 1
        },
        insert_outcome(d, entry_of(root, digest), key, value) is Err ==> insert_steps(
            entry_of(root, digest),
            key,
            value,
            exists_at(d, entry_of(root, digest).subdir),
            exists_at(d, entry_of(root, digest).key_file),
        ) is Err,
{
    broadcast use vstd::set::group_set_axioms;
    let e = entry_of(root, digest);
    if insert_outcome(d, e, key, value) is Ok {
        lemma_entry_paths_distinct(root, digest);
        lemma_entry_children(root, digest);
        lemma_entry_listing(root, digest);
        lemma_insert_effect(d, e, key, value);
        let d2 = insert_outcome(d, e, key, value)->Ok_0;
        if exists_at(d, e.key_file) {
            assert(is_under(e.key_file, e.subdir));
            assert(d.dirs.contains(e.subdir));
        }
        assert(!exists_at(d, e.key_file));
        assert(d2.files.dom() =~= d.files.dom().insert(e.key_file).insert(e.value_file));
        assert(counted_entries(d2, root) =~= counted_entries(d, root).insert(e.key_file));
        lemma_counted_finite(d, root);
    }
}

/// The count a store keeps follows a removal: on a finite directory tree
/// where `size` is the count that opening the store at `root` would give, a
/// removal that succeeds, cleanup included, takes one counted mapping away,
/// as `record_remove` takes one from `size` (which is then positive); a
/// refused one takes no step and `size` stays.
#[verifier::rlimit(30)]
pub proof fn lemma_remove_keeps_count(d: Disk, root: Seq<char>, digest: Seq<char>, size: nat)
    requires
        is_tree(d),
        is_finite_disk(d),
        is_hex_digest(digest),
        size == counted_entries(d, root).len(),
        remove_outcome(d, entry_of(root, digest)) is Ok ==> remove_completes(d, entry_of(root, digest)),
    ensures
        remove_outcome(d, entry_of(root, digest)) is Ok ==> {
            &&& size > 0
            &&& is_finite_disk(remove_outcome(d, entry_of(root, digest))->Ok_0.1)
            &&& counted_entries(remove_outcome(d, entry_of(root, digest))->Ok_0.1, root).len() == size - 1
        },
        remove_outcome(d, entry_of(root, digest)) is Err ==> remove_steps(
            entry_of(root, digest),
            exists_at(d, entry_of(root, digest).subdir),
            exists_at(d, entry_of(root, digest).key_file),
        ) is Err,
{
    broadcast use vstd::set::group_set_axioms;
    let e = entry_of(root, digest);
    if remove_outcome(d, e) is Ok {
        lemma_entry_paths_distinct(root, digest);
        lemma_entry_children(root, digest);
        lemma_entry_listing(root, digest);
        let rk = FsStep::RemoveFile(e.key_file);
        let rd = FsStep::ReadFile(e.value_file);
        let rv = FsStep::RemoveFile(e.value_file);
        lemma_apply_three(d, rk, rd, rv);
        lemma_ok_three(d, rk, rd, rv);
        assert(d.files.contains_key(e.key_file));
        assert(!d.dirs.contains(e.key_file));
        let d1 = removal_disk(d, e);
        assert(d1.dirs == d.dirs);
        assert(d1.files == d.files.remove(e.key_file).remove(e.value_file));
        let drop_subdir = !holds_mapping_files(d1, e.subdir);
        if drop_subdir {
            lemma_apply_one(d1, FsStep::RemoveDirAll(e.subdir));
        } else {
            lemma_apply_none(d1);
        }
        let d3 = apply_steps(d1, removal_cleanup(d, e));
        assert(counted_entries(d, root).contains(e.key_file));
        assert(counted_entries(d1, root) =~= counted_entries(d, root).remove(e.key_file));
        if drop_subdir {
            assert forall|p: Seq<char>| #[trigger] counted_entries(d1, root).contains(p) implies counted_entries(
                d3,
                root,
            ).contains(p) by {
                if p == e.subdir || is_under(p, e.subdir) {
                    if p != e.subdir {
                        lemma_listed_in_subdir_is_child(root, digest, p);
                        assert(is_mapping_name(p));
                        assert(holds_mapping_files(d1, e.subdir));
                    }
                }
            }
        }
        assert(counted_entries(d3, root) =~= counted_entries(d1, root));
        lemma_counted_finite(d, root);
        lemma_counted_finite(d1, root);
        vstd::set_lib::lemma_set_subset_finite(d1.dirs, d3.dirs);
        vstd::set_lib::lemma_set_subset_finite(d1.files.dom(), d3.files.dom());
    }
}


/// The directory a store keeps ends in a slash and is the directory it was
/// given (the current directory for an empty path), with one slash added
/// where that directory does not already end in one; so every path the store
/// builds lies inside the given directory.
pub proof fn lemma_store_dir_is_given_dir(path: Seq<char>)
    ensures
        path.len() > 0 ==> storage_dir(path) == path,
        path.len() == 0 ==> storage_dir(path) == seq!['.'],
        store_dir(path).len() > 0,
        store_dir(path).last() == '/',
        storage_dir(path).len() > 0 && storage_dir(path).last() == '/' ==> store_dir(path) == storage_dir(path),
        !(storage_dir(path).len() > 0 && storage_dir(path).last() == '/') ==> store_dir(path) == storage_dir(path)
            + seq!['/'],
{
}

/// A lookup changes nothing on the disk: every step of its plan is a read,
/// so the disk after it is the disk before it, and looking the key up again
/// gives the same answer.
pub proof fn lemma_lookup_changes_nothing(d: Disk, e: EntryView, subdir_exists: bool, key_file_exists: bool)
    ensures
        lookup_steps(e, subdir_exists, key_file_exists) is Ok ==> {
            &&& forall|i: int|
                0 <= i < lookup_steps(e, subdir_exists, key_file_exists)->Ok_0.len()
                    ==> #[trigger] lookup_steps(e, subdir_exists, key_file_exists)->Ok_0[i] is ReadFile
            &&& apply_steps(d, lookup_steps(e, subdir_exists, key_file_exists)->Ok_0) == d
        },
        lookup_outcome(d, e) is Ok ==> lookup_outcome(
            apply_steps(d, lookup_steps(e, exists_at(d, e.subdir), exists_at(d, e.key_file))->Ok_0),
            e,
        ) == lookup_outcome(d, e),
{
    if lookup_steps(e, subdir_exists, key_file_exists) is Ok {
        lemma_apply_one(d, FsStep::ReadFile(e.value_file));
    }
    if lookup_outcome(d, e) is Ok {
        lemma_apply_one(d, FsStep::ReadFile(e.value_file));
    }
}

/// A lookup of a stored mapping completes: where the value file is a file,
/// the read of an accepted lookup succeeds and gives its contents.
pub proof fn lemma_lookup_completes(d: Disk, e: EntryView)
    requires
        d.files.contains_key(e.value_file),
        lookup_outcome(d, e) is Ok,
    ensures
        all_steps_ok(d, lookup_steps(e, exists_at(d, e.subdir), exists_at(d, e.key_file))->Ok_0),
        lookup_outcome(d, e) == Ok::<Option<Seq<char>>, StoreError>(Some(d.files[e.value_file])),
{
    lemma_ok_one(d, FsStep::ReadFile(e.value_file));
    lemma_read_one(d, e.value_file);
}

/// The directory at `dir_path` exists, with every directory above it: each
/// path that `dir_path` continues with a slash is a directory.
pub open spec fn dir_exists_with_ancestors(d: Disk, dir_path: Seq<char>) -> bool {
    forall|q: Seq<char>|
        #![trigger d.dirs.contains(q)]
        q.len() + 1 <= dir_path.len() && dir_path.subrange(0, q.len() + 1int) == q + seq!['/']
            ==> d.dirs.contains(q)
}

/// What lies above the subdirectory of an entry lies above the store's
/// directory.
proof fn lemma_subdir_ancestors(d: Disk, root: Seq<char>, digest: Seq<char>)
    requires
        is_hex_digest(digest),
        dir_exists_with_ancestors(d, root),
    ensures
        forall|q: Seq<char>| #[trigger] is_under(entry_of(root, digest).subdir, q) ==> d.dirs.contains(q),
{
    let e = entry_of(root, digest);
    assert forall|q: Seq<char>| #[trigger] is_under(e.subdir, q) implies d.dirs.contains(q) by {
        let k = q.len() as int;
        assert(e.subdir.subrange(0, k + 1)[k] == (q + seq!['/'])[k]);
        assert(e.subdir[k] == '/');
        if k >= root.len() {
            assert(e.subdir[k] == digest[k - root.len()]);
            assert(is_lower_hex_digit(digest[k - root.len()]));
        }
        assert(root.subrange(0, k + 1) =~= q + seq!['/']) by {
            assert forall|i: int| 0 <= i < k + 1 implies root.subrange(0, k + 1)[i] == (q + seq!['/'])[i] by {
                assert(e.subdir.subrange(0, k + 1)[i] == (q + seq!['/'])[i]);
                assert(e.subdir[i] == root[i]);
            }
        }
    }
}

/// What lies above a path made of a directory, a slash and a slash-free
/// rest is that directory or lies above it.
proof fn lemma_child_ancestors(dir: Seq<char>, rest: Seq<char>, q: Seq<char>)
    requires
        dir.len() > 0,
        dir.last() != '/',
        forall|i: int| 0 <= i < rest.len() ==> rest[i] != '/',
        is_under(dir + seq!['/'] + rest, q),
    ensures
        q == dir || is_under(dir, q),
{
    let p = dir + seq!['/'] + rest;
    let k = q.len() as int;
    assert(p.subrange(0, k + 1)[k] == (q + seq!['/'])[k]);
    assert(p[k] == '/');
    if k > dir.len() {
        assert(p[k] == rest[k - dir.len() - 1]);
    } else if k == dir.len() {
        assert forall|i: int| 0 <= i < k implies q[i] == dir[i] by {
            assert(p.subrange(0, k + 1)[i] == (q + seq!['/'])[i]);
        }
        assert(q =~= dir);
    } else {
        if k == dir.len() - 1 {
            assert(p[k] == dir.last());
        }
        assert(dir.subrange(0, k + 1) =~= q + seq!['/']) by {
            assert forall|i: int| 0 <= i < k + 1 implies dir.subrange(0, k + 1)[i] == (q + seq!['/'])[i] by {
                assert(p.subrange(0, k + 1)[i] == (q + seq!['/'])[i]);
            }
        }
    }
}

/// Above the key file and the value file of an entry lie its subdirectory
/// and what lies above that.
proof fn lemma_entry_file_ancestors(root: Seq<char>, digest: Seq<char>, q: Seq<char>)
    requires
        is_hex_digest(digest),
        is_under(entry_of(root, digest).key_file, q) || is_under(entry_of(root, digest).value_file, q),
    ensures
        q == entry_of(root, digest).subdir || is_under(entry_of(root, digest).subdir, q),
{
    let e = entry_of(root, digest);
    assert(e.subdir.last() == digest[9]);
    assert(is_lower_hex_digit(digest[9]));
    let rk = digest + key_ext();
    let rv = digest + value_ext();
    assert forall|i: int| 0 <= i < rk.len() implies rk[i] != '/' by {
        if i < digest.len() {
            assert(is_lower_hex_digit(digest[i]));
        }
    }
    assert forall|i: int| 0 <= i < rv.len() implies rv[i] != '/' by {
        if i < digest.len() {
            assert(is_lower_hex_digit(digest[i]));
        }
    }
    assert(e.key_file =~= e.subdir + seq!['/'] + rk);
    assert(e.value_file =~= e.subdir + seq!['/'] + rv);
    if is_under(e.key_file, q) {
        lemma_child_ancestors(e.subdir, rk, q);
    } else {
        lemma_child_ancestors(e.subdir, rv, q);
    }
}

/// An accepted insertion completes: on a directory tree where the store's
/// directory exists, an insertion that is not refused performs every step of
/// its plan with success, in order: the subdirectory is created before any
/// file is written into it. (Its subdirectory's path must not name a file,
/// nor its value file's path a directory; there, writing fails.)
#[verifier::rlimit(30)]
pub proof fn lemma_accepted_insert_completes(
    d: Disk,
    root: Seq<char>,
    digest: Seq<char>,
    key: Seq<char>,
    value: Seq<char>,
)
    requires
        is_tree(d),
        is_hex_digest(digest),
        dir_exists_with_ancestors(d, root),
        !d.files.contains_key(entry_of(root, digest).subdir),
        !d.dirs.contains(entry_of(root, digest).value_file),
        insert_outcome(d, entry_of(root, digest), key, value) is Ok,
    ensures
        insert_completes(d, entry_of(root, digest), key, value),
{
    let e = entry_of(root, digest);
    lemma_entry_paths_distinct(root, digest);
    lemma_subdir_ancestors(d, root, digest);
    let wk = FsStep::WriteFile(e.key_file, key);
    let wv = FsStep::WriteFile(e.value_file, value);
    if exists_at(d, e.subdir) {
        assert(d.dirs.contains(e.subdir));
        lemma_ok_two(d, wk, wv);
        assert forall|q: Seq<char>| #[trigger] is_under(e.key_file, q) implies d.dirs.contains(q) by {
            lemma_entry_file_ancestors(root, digest, q);
        }
        let d1 = apply_step(d, wk);
        assert forall|q: Seq<char>| #[trigger] is_under(e.value_file, q) implies d1.dirs.contains(q) by {
            lemma_entry_file_ancestors(root, digest, q);
        }
    } else {
        let cd = FsStep::CreateDir(e.subdir);
        lemma_ok_three(d, cd, wk, wv);
        if d.dirs.contains(e.key_file) {
            assert(exists_at(d, e.key_file));
        }
        if d.dirs.contains(e.value_file) {
            assert(exists_at(d, e.value_file));
        }
        let d1 = apply_step(d, cd);
        assert forall|q: Seq<char>| #[trigger] is_under(e.key_file, q) implies d1.dirs.contains(q) by {
            lemma_entry_file_ancestors(root, digest, q);
        }
        let d2 = apply_step(d1, wk);
        assert forall|q: Seq<char>| #[trigger] is_under(e.value_file, q) implies d2.dirs.contains(q) by {
            lemma_entry_file_ancestors(root, digest, q);
        }
    }
}

/// An accepted removal of a stored mapping completes: on a directory tree
/// where the key file and the value file of an entry are files, its removal
/// is accepted, performs every step, the cleanup of the subdirectory
/// included, with success, in order, and reads the value file's contents.
pub proof fn lemma_accepted_remove_completes(d: Disk, root: Seq<char>, digest: Seq<char>)
    requires
        is_tree(d),
        d.files.contains_key(entry_of(root, digest).key_file),
        d.files.contains_key(entry_of(root, digest).value_file),
    ensures
        remove_outcome(d, entry_of(root, digest)) is Ok,
        remove_completes(d, entry_of(root, digest)),
        remove_outcome(d, entry_of(root, digest))->Ok_0.0 == Some(d.files[entry_of(root, digest).value_file]),
        !exists_at(remove_outcome(d, entry_of(root, digest))->Ok_0.1, entry_of(root, digest).key_file),
        !exists_at(remove_outcome(d, entry_of(root, digest))->Ok_0.1, entry_of(root, digest).value_file),
{
    let e = entry_of(root, digest);
    lemma_entry_paths_distinct(root, digest);
    assert(exists_at(d, e.key_file));
    assert(d.dirs.contains(e.subdir));
    let rk = FsStep::RemoveFile(e.key_file);
    let rd = FsStep::ReadFile(e.value_file);
    let rv = FsStep::RemoveFile(e.value_file);
    lemma_ok_three(d, rk, rd, rv);
    lemma_apply_three(d, rk, rd, rv);
    lemma_read_in_removal(d, e.key_file, e.value_file);
    let d1 = removal_disk(d, e);
    assert(d1.dirs == d.dirs);
    if !holds_mapping_files(d1, e.subdir) {
        lemma_ok_one(d1, FsStep::RemoveDirAll(e.subdir));
        lemma_apply_one(d1, FsStep::RemoveDirAll(e.subdir));
    } else {
        lemma_ok_none(d1);
        lemma_apply_none(d1);
    }
}

/// The cleanup after a removal deletes the subdirectory exactly when no other
/// key file or value file is left in it: on a directory tree where the key
/// file and the value file of an entry are files, after its removal the
/// subdirectory and everything in it are gone where no other entry named
/// like a key file or a value file lies directly in it; otherwise the
/// subdirectory and every other entry stay.
pub proof fn lemma_cleanup_removes_subdir_left_without_mappings(d: Disk, root: Seq<char>, digest: Seq<char>)
    requires
        is_tree(d),
        d.files.contains_key(entry_of(root, digest).key_file),
        d.files.contains_key(entry_of(root, digest).value_file),
    ensures
        (forall|p: Seq<char>|
            #[trigger] is_child(p, entry_of(root, digest).subdir) && exists_at(d, p) && is_mapping_name(p) ==> p
                == entry_of(root, digest).key_file || p == entry_of(root, digest).value_file) ==> {
            &&& !exists_at(remove_outcome(d, entry_of(root, digest))->Ok_0.1, entry_of(root, digest).subdir)
            &&& forall|p: Seq<char>|
                #[trigger] is_under(p, entry_of(root, digest).subdir) ==> !exists_at(
                    remove_outcome(d, entry_of(root, digest))->Ok_0.1,
                    p,
                )
        },
        forall|p: Seq<char>|
            #[trigger] is_child(p, entry_of(root, digest).subdir) && exists_at(d, p) && is_mapping_name(p) && p
                != entry_of(root, digest).key_file && p != entry_of(root, digest).value_file ==> {
                &&& exists_at(remove_outcome(d, entry_of(root, digest))->Ok_0.1, entry_of(root, digest).subdir)
                &&& exists_at(remove_outcome(d, entry_of(root, digest))->Ok_0.1, p)
            },
{
    let e = entry_of(root, digest);
    lemma_accepted_remove_completes(d, root, digest);
    lemma_entry_paths_distinct(root, digest);
    let rk = FsStep::RemoveFile(e.key_file);
    let rd = FsStep::ReadFile(e.value_file);
    let rv = FsStep::RemoveFile(e.value_file);
    lemma_apply_three(d, rk, rd, rv);
    let d1 = removal_disk(d, e);
    assert(d1.dirs == d.dirs);
    assert(d1.files == d.files.remove(e.key_file).remove(e.value_file));
    assert(d.dirs.contains(e.subdir));
    if !holds_mapping_files(d1, e.subdir) {
        lemma_apply_one(d1, FsStep::RemoveDirAll(e.subdir));
    } else {
        lemma_apply_none(d1);
        let p = choose|p: Seq<char>| #[trigger] is_child(p, e.subdir) && exists_at(d1, p) && is_mapping_name(p);
        assert(exists_at(d, p));
    }
    let d3 = apply_steps(d1, removal_cleanup(d, e));
    assert forall|p: Seq<char>|
        #[trigger] is_child(p, e.subdir) && exists_at(d, p) && is_mapping_name(p) && p != e.key_file && p
            != e.value_file implies exists_at(d3, e.subdir) && exists_at(d3, p) by {
        assert(exists_at(d1, p));
        assert(holds_mapping_files(d1, e.subdir));
    }
    if forall|p: Seq<char>|
        #[trigger] is_child(p, e.subdir) && exists_at(d, p) && is_mapping_name(p) ==> p == e.key_file || p
            == e.value_file {
        assert(!holds_mapping_files(d1, e.subdir)) by {
            if holds_mapping_files(d1, e.subdir) {
                let p = choose|p: Seq<char>| #[trigger] is_child(p, e.subdir) && exists_at(d1, p) && is_mapping_name(p);
                assert(exists_at(d, p));
            }
        }
        assert(!exists_at(d3, e.subdir));
    }
}


/// Insertion is refused exactly where the key is stored: an insertion at an
/// entry is refused, as already existing, where its subdirectory and its key
/// file exist, and accepted otherwise.
pub proof fn lemma_insert_refused_exactly_when_stored(d: Disk, e: EntryView, key: Seq<char>, value: Seq<char>)
    ensures
        insert_outcome(d, e, key, value) is Err <==> (exists_at(d, e.subdir) && exists_at(d, e.key_file)),
        insert_outcome(d, e, key, value) is Err ==> insert_outcome(d, e, key, value)
            == Err::<Disk, StoreError>(StoreError::AlreadyExists),
{
}

/// Lookup and removal find nothing exactly where the key is not stored:
/// they answer that no mapping exists where the subdirectory or the key file
/// is missing, and are accepted otherwise.
pub proof fn lemma_not_found_exactly_when_missing(d: Disk, e: EntryView)
    ensures
        lookup_outcome(d, e) is Err <==> !(exists_at(d, e.subdir) && exists_at(d, e.key_file)),
        remove_outcome(d, e) is Err <==> !(exists_at(d, e.subdir) && exists_at(d, e.key_file)),
        lookup_outcome(d, e) is Err ==> lookup_outcome(d, e) == Err::<Option<Seq<char>>, StoreError>(
            StoreError::NotFound,
        ),
        remove_outcome(d, e) is Err ==> remove_outcome(d, e) == Err::<(Option<Seq<char>>, Disk), StoreError>(
            StoreError::NotFound,
        ),
{
}

} // verus!
