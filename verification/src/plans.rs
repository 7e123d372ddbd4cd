//! What each operation of the store does on the file system, for what it
//! observed there: the decisions of `insert`, `lookup` and `remove`.

use vstd::prelude::*;

use crate::disk::{FsOp, FsStep, steps_of};
use crate::paths::{is_mapping_name, is_mapping_file};
use crate::store::{path_views};
use crate::store::{EntryPaths, EntryView, StoreError};

verus! {

/// A plan as the model sees it: the steps, or the error the operation answers.
pub open spec fn plan_view(plan: Result<Vec<FsOp>, StoreError>) -> Result<Seq<FsStep>, StoreError> {
    match plan {
        Ok(ops) => Ok(steps_of(ops@)),
        Err(e) => Err(e),
    }
}

/// Inserting `key` with `value`: refused where the key file exists in an
/// existing subdirectory; otherwise the subdirectory is created where it is
/// missing, then the key file and the value file are written.
pub open spec fn insert_steps(
    e: EntryView,
    key: Seq<char>,
    value: Seq<char>,
    subdir_exists: bool,
    key_file_exists: bool,
) -> Result<Seq<FsStep>, StoreError> {
    if subdir_exists {
        if key_file_exists {
            Err(StoreError::AlreadyExists)
        } else {
            Ok(seq![FsStep::WriteFile(e.key_file, key), FsStep::WriteFile(e.value_file, value)])
        }
    } else {
        Ok(
            seq![
                FsStep::CreateDir(e.subdir),
                FsStep::WriteFile(e.key_file, key),
                FsStep::WriteFile(e.value_file, value),
            ],
        )
    }
}

/// Looking a key up: its value file is read where the subdirectory and the
/// key file exist; otherwise no mapping is found.
pub open spec fn lookup_steps(e: EntryView, subdir_exists: bool, key_file_exists: bool) -> Result<
    Seq<FsStep>,
    StoreError,
> {
    if subdir_exists && key_file_exists {
        Ok(seq![FsStep::ReadFile(e.value_file)])
    } else {
        Err(StoreError::NotFound)
    }
}

/// Removing a key: where the subdirectory and the key file exist, the key
/// file is removed, the value file is read and then removed; otherwise no
/// mapping is found.
pub open spec fn remove_steps(e: EntryView, subdir_exists: bool, key_file_exists: bool) -> Result<
    Seq<FsStep>,
    StoreError,
> {
    if subdir_exists && key_file_exists {
        Ok(
            seq![
                FsStep::RemoveFile(e.key_file),
                FsStep::ReadFile(e.value_file),
                FsStep::RemoveFile(e.value_file),
            ],
        )
    } else {
        Err(StoreError::NotFound)
    }
}

/// Some path among `paths` names a key file or a value file.
pub open spec fn any_mapping_name(paths: Seq<Seq<char>>) -> bool {
    exists|i: int| 0 <= i < paths.len() && is_mapping_name(#[trigger] paths[i])
}

/// After a removal: the subdirectory goes, with whatever else is left in it,
/// where it holds no key file and no value file any more.
pub open spec fn cleanup_steps(e: EntryView, no_mapping_files_left: bool) -> Seq<FsStep> {
    if no_mapping_files_left {
        seq![FsStep::RemoveDirAll(e.subdir)]
    } else {
        seq![]
    }
}

impl EntryPaths {
    /// The plan of inserting the serialized key and value of this entry,
    /// given whether its subdirectory exists and whether its key file does.
    pub fn insert_plan(
        &self,
        serialized_key: &str,
        serialized_value: &str,
        subdir_exists: bool,
        key_file_exists: bool,
    ) -> (plan: Result<Vec<FsOp>, StoreError>)
        ensures
            plan_view(plan) == insert_steps(
                self@,
                serialized_key@,
                serialized_value@,
                subdir_exists,
                key_file_exists,
            ),
    {
        let write_key = FsOp::WriteFile(self.key_file.clone(), String::from_str(serialized_key));
        let write_value = FsOp::WriteFile(
            self.value_file.clone(),
            String::from_str(serialized_value),
        );
        if subdir_exists {
            if key_file_exists {
                Err(StoreError::AlreadyExists)
            } else {
                let ops = vec![write_key, write_value];
                assert(steps_of(ops@) =~= seq![
                    FsStep::WriteFile(self@.key_file, serialized_key@),
                    FsStep::WriteFile(self@.value_file, serialized_value@),
                ]);
                Ok(ops)
            }
        } else {
            let ops = vec![FsOp::CreateDir(self.subdir.clone()), write_key, write_value];
            assert(steps_of(ops@) =~= seq![
                FsStep::CreateDir(self@.subdir),
                FsStep::WriteFile(self@.key_file, serialized_key@),
                FsStep::WriteFile(self@.value_file, serialized_value@),
            ]);
            Ok(ops)
        }
    }

    /// The plan of looking this entry up, given whether its subdirectory
    /// exists and whether its key file does.
    pub fn lookup_plan(&self, subdir_exists: bool, key_file_exists: bool) -> (plan: Result<
        Vec<FsOp>,
        StoreError,
    >)
        ensures
            plan_view(plan) == lookup_steps(self@, subdir_exists, key_file_exists),
    {
        if subdir_exists && key_file_exists {
            let ops = vec![FsOp::ReadFile(self.value_file.clone())];
            assert(steps_of(ops@) =~= seq![FsStep::ReadFile(self@.value_file)]);
            Ok(ops)
        } else {
            Err(StoreError::NotFound)
        }
    }

    /// The plan of removing this entry, given whether its subdirectory exists
    /// and whether its key file does.
    pub fn remove_plan(&self, subdir_exists: bool, key_file_exists: bool) -> (plan: Result<
        Vec<FsOp>,
        StoreError,
    >)
        ensures
            plan_view(plan) == remove_steps(self@, subdir_exists, key_file_exists),
    {
        if subdir_exists && key_file_exists {
            let ops = vec![
                FsOp::RemoveFile(self.key_file.clone()),
                FsOp::ReadFile(self.value_file.clone()),
                FsOp::RemoveFile(self.value_file.clone()),
            ];
            assert(steps_of(ops@) =~= seq![
                FsStep::RemoveFile(self@.key_file),
                FsStep::ReadFile(self@.value_file),
                FsStep::RemoveFile(self@.value_file),
            ]);
            Ok(ops)
        } else {
            Err(StoreError::NotFound)
        }
    }

    /// The plan that follows a removal, given the paths of the entries that
    /// are left in the subdirectory.
    pub fn cleanup_plan(&self, remaining: &Vec<String>) -> (ops: Vec<FsOp>)
        ensures
            steps_of(ops@) == cleanup_steps(self@, !any_mapping_name(path_views(remaining@))),
    {
        let mut found = false;
        let mut i: usize = 0;
        while i < remaining.len()
            invariant
                i <= remaining.len(),
                found <==> exists|j: int| 0 <= j < i && is_mapping_name(#[trigger] path_views(remaining@)[j]),
            decreases remaining.len() - i,
        {
            let hit = is_mapping_file(remaining[i].as_str());
            assert(path_views(remaining@)[i as int] == remaining@[i as int]@);
            if hit {
                found = true;
            }
            i = i + 1;
        }
        if !found {
            let ops = vec![FsOp::RemoveDirAll(self.subdir.clone())];
            assert(steps_of(ops@) =~= seq![FsStep::RemoveDirAll(self@.subdir)]);
            ops
        } else {
            let ops: Vec<FsOp> = Vec::new();
            assert(steps_of(ops@) =~= Seq::<FsStep>::empty());
            ops
        }
    }
}

} // verus!
