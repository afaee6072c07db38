//! Filtering helpers applied to candidate files, and the examination step
//! that turns a passing candidate into a file record.

use vstd::prelude::*;

use vstd::string::{StrSliceExecFns, StringExecFns};

use crate::config::Config;
use crate::file_result::FileResult;

verus! {

/// `suffix` is a suffix of `s`.
pub open spec fn is_suffix_of(suffix: Seq<char>, s: Seq<char>) -> bool {
    suffix.len() <= s.len() && s.subrange(s.len() - suffix.len(), s.len() as int) == suffix
}

/// The view of a single string, as a function value.
pub open spec fn str_view() -> spec_fn(String) -> Seq<char> {
    |e: String| e@
}

/// The views of a list of strings.
pub open spec fn str_views(ss: Seq<String>) -> Seq<Seq<char>> {
    ss.map_values(str_view())
}

/// The extension filter admits a name when the allow-list is the single
/// wildcard entry, or when some listed suffix ends the name.
pub open spec fn ext_allows(exts: Seq<Seq<char>>, name: Seq<char>) -> bool {
    if exts.len() == 1 && exts[0] == "*"@ {
        true
    } else {
        exists|i: int| 0 <= i < exts.len() && is_suffix_of(exts[i], name)
    }
}

/// Whether `suffix` ends `s`, by comparing characters.
fn str_ends_with(s: &String, suffix: &String) -> (r: bool)
    ensures
        r == is_suffix_of(suffix@, s@),
{
    let n = s.as_str().unicode_len();
    let m = suffix.as_str().unicode_len();
    if m > n {
        return false;
    }
    let off = n - m;
    let mut i: usize = 0;
    while i < m
        invariant
            m <= n,
            off == n - m,
            i <= m,
            n == s@.len(),
            m == suffix@.len(),
            forall|j: int| 0 <= j < i ==> s@[off + j] == suffix@[j],
        decreases m - i,
    {
        if s.as_str().get_char(off + i) != suffix.as_str().get_char(i) {
            proof {
                assert(!is_suffix_of(suffix@, s@)) by {
                    if is_suffix_of(suffix@, s@) {
                        assert(s@.subrange(off as int, n as int)[i as int] == s@[off + i]);
                    }
                }
            }
            return false;
        }
        i = i + 1;
    }
    proof {
        assert(s@.subrange(off as int, n as int) =~= suffix@);
    }
    true
}

/// A file name passes the extension filter exactly when `ext_allows` admits
/// it: either the allow-list is the single wildcard `"*"`, or some listed
/// suffix ends the name.
pub fn check_ext(curr_file: &String, curr_exts: &Vec<String>) -> (r: bool)
    ensures
        r == ext_allows(str_views(curr_exts@), curr_file@),
{
    let star = String::from_str("*");
    if curr_exts.len() == 1 && curr_exts[0] == star {
        proof {
            assert(str_views(curr_exts@)[0] == curr_exts@[0]@);
        }
        return true;
    }
    let mut k: usize = 0;
    while k < curr_exts.len()
        invariant
            k <= curr_exts.len(),
            forall|t: int| 0 <= t < k ==> !is_suffix_of(str_views(curr_exts@)[t], curr_file@),
        decreases curr_exts.len() - k,
    {
        if str_ends_with(curr_file, &curr_exts[k]) {
            proof {
                let kk = k as int;
                assert(str_views(curr_exts@)[kk] == curr_exts@[kk]@);
                assert(is_suffix_of(str_views(curr_exts@)[kk], curr_file@));
            }
            return true;
        }
        k = k + 1;
    }
    false
}

/// A file size passes the size filter exactly when it lies within the
/// inclusive bounds `[min_size, max_size]`.
pub fn check_size(curr_fs: u128, min_size: u128, max_size: u128) -> (r: bool)
    ensures
        r == (min_size <= curr_fs && curr_fs <= max_size),
{
    curr_fs >= min_size && curr_fs <= max_size
}

/// Examine one candidate file, already reduced to its name, full path, size
/// and modification time. A record comes back exactly when the size is not
/// zero, the name passes the extension filter and the size lies within the
/// configured bounds; the record then carries the path, size and time, with
/// an empty hash.
pub fn process_file(
    file_name: &String,
    file_path: &String,
    size: u128,
    mtime: i64,
    curr_conf: &Config,
) -> (r: Option<FileResult>)
    ensures
        match r {
            Some(fr) => {
                &&& size != 0
                &&& ext_allows(str_views(curr_conf.exts@), file_name@)
                &&& curr_conf.ll_size <= size <= curr_conf.ul_size
                &&& fr.file_path@ == file_path@
                &&& fr.size == size
                &&& fr.mtime == mtime
                &&& fr.hash@ == Seq::<char>::empty()
            },
            None => !(size != 0 && ext_allows(str_views(curr_conf.exts@), file_name@)
                && curr_conf.ll_size <= size <= curr_conf.ul_size),
        },
{
    if size == 0 {
        return None;
    }
    let ext_match = check_ext(file_name, &curr_conf.exts);
    let size_match = check_size(size, curr_conf.ll_size, curr_conf.ul_size);
    if ext_match && size_match {
        Some(FileResult::new(file_path.clone(), size, mtime))
    } else {
        None
    }
}

/// The working files that the end of a run discards: the log when no log was
/// asked for, then the archive when no archive was asked for, and nothing
/// else.
pub fn files_to_discard(curr_conf: &Config) -> (r: Vec<String>)
    ensures
        str_views(r@) == (if !curr_conf.log {
            seq![curr_conf.log_file@]
        } else {
            Seq::<Seq<char>>::empty()
        }) + (if !curr_conf.archive {
            seq![curr_conf.archive_file@]
        } else {
            Seq::<Seq<char>>::empty()
        }),
{
    let mut r: Vec<String> = Vec::new();
    if !curr_conf.log {
        r.push(curr_conf.log_file.clone());
    }
    if !curr_conf.archive {
        r.push(curr_conf.archive_file.clone());
    }
    proof {
        assert(str_views(r@) =~= (if !curr_conf.log {
            seq![curr_conf.log_file@]
        } else {
            Seq::<Seq<char>>::empty()
        }) + (if !curr_conf.archive {
            seq![curr_conf.archive_file@]
        } else {
            Seq::<Seq<char>>::empty()
        }));
    }
    r
}

} // verus!
