//! The path arithmetic of the store: how the root directory is spelled, and
//! the text operations that build the names of files.

use vstd::prelude::*;

verus! {

/// `first` followed by `second`.
pub fn combine_string(first: &str, second: &str) -> (res: String)
    ensures
        res@ == first@ + second@,
{
    let mut res = String::from_str(first);
    res.append(second);
    res
}

/// The path of a file named `hashed_value` with `extension` inside directory `path`.
pub open spec fn file_path(path: Seq<char>, hashed_value: Seq<char>, extension: Seq<char>) -> Seq<char> {
    path + seq!['/'] + hashed_value + extension
}

/// `path`, a slash, `hashed_value` and `extension`, in that order.
pub fn create_file_path(path: &String, hashed_value: &str, extension: &str) -> (res: String)
    ensures
        res@ == file_path(path@, hashed_value@, extension@),
{
    let mut res = path.clone();
    proof {
        reveal_strlit("/");
    }
    res.append("/");
    res.append(hashed_value);
    res.append(extension);
    res
}

/// The directory a store opens for the path it is given: the current
/// directory where the path is empty.
pub open spec fn storage_dir(path: Seq<char>) -> Seq<char> {
    if path.len() == 0 {
        seq!['.']
    } else {
        path
    }
}

/// The directory that the store at `path` lives in.
pub fn directory_for(path: &str) -> (dir: String)
    ensures
        dir@ == storage_dir(path@),
{
    if path.is_empty() {
        proof {
            reveal_strlit(".");
        }
        String::from_str(".")
    } else {
        String::from_str(path)
    }
}

/// A character that takes one byte in UTF-8.
pub open spec fn is_ascii_char(c: char) -> bool {
    (c as u32) < 128
}

/// `dir` with a slash at its end, added where it has none.
pub open spec fn with_trailing_slash(dir: Seq<char>) -> Seq<char> {
    if dir.len() > 0 && dir.last() == '/' {
        dir
    } else {
        dir + seq!['/']
    }
}

/// The directory name the store keeps: `dir` ending in exactly the slash it
/// had, or one more.
pub fn normalize_dir(dir: &str) -> (res: String)
    requires
        dir@.len() > 0,
    ensures
        res@ == with_trailing_slash(dir@),
{
    let n = dir.unicode_len();
    let last = dir.get_char(n - 1);
    let mut res = String::from_str(dir);
    if last != '/' {
        proof {
            reveal_strlit("/");
        }
        res.append("/");
    }
    res
}

/// `s` ends with `suffix`.
pub open spec fn ends_with(s: Seq<char>, suffix: Seq<char>) -> bool {
    s.len() >= suffix.len() && s.subrange(s.len() - suffix.len(), s.len() as int) == suffix
}

/// Whether `s` ends with `suffix`.
pub fn ends_with_str(s: &str, suffix: &str) -> (res: bool)
    ensures
        res == ends_with(s@, suffix@),
{
    let sl = s.unicode_len();
    let xl = suffix.unicode_len();
    if xl > sl {
        return false;
    }
    let off = sl - xl;
    let mut j: usize = 0;
    while j < xl
        invariant
            sl == s@.len(),
            xl == suffix@.len(),
            off + xl == sl,
            j <= xl,
            forall|m: int| 0 <= m < j ==> s@[off + m] == suffix@[m],
        decreases xl - j,
    {
        if s.get_char(off + j) != suffix.get_char(j) {
            assert(s@.subrange(off as int, sl as int)[j as int] != suffix@[j as int]);
            return false;
        }
        j = j + 1;
    }
    assert(s@.subrange(off as int, sl as int) =~= suffix@);
    true
}

/// The extension of the file that holds a serialized key.
pub open spec fn key_ext() -> Seq<char> {
    seq!['.', 'k', 'e', 'y']
}

/// The extension of the file that holds a serialized value.
pub open spec fn value_ext() -> Seq<char> {
    seq!['.', 'v', 'a', 'l', 'u', 'e']
}

/// A path whose name is that of a key file or a value file.
pub open spec fn is_mapping_name(p: Seq<char>) -> bool {
    ends_with(p, key_ext()) || ends_with(p, value_ext())
}

/// Whether the name at the end of `path` is that of a key file.
pub fn is_key_file(path: &str) -> (res: bool)
    ensures
        res == ends_with(path@, key_ext()),
{
    proof {
        reveal_strlit(".key");
        assert(".key"@ =~= key_ext());
    }
    ends_with_str(path, ".key")
}

/// Whether the name at the end of `path` is that of a key file or a value file.
pub fn is_mapping_file(path: &str) -> (res: bool)
    ensures
        res == is_mapping_name(path@),
{
    proof {
        reveal_strlit(".value");
        assert(".value"@ =~= value_ext());
    }
    is_key_file(path) || ends_with_str(path, ".value")
}

} // verus!
