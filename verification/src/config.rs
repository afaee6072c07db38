//! The validated run configuration. Building it from command-line text is the
//! caller's job; this module only assembles and defaults the plain values.

use vstd::prelude::*;

use vstd::string::{StrSliceExecFns, StringExecFns};

verus! {

/// A path string with any single trailing `'/'` removed.
pub open spec fn strip_slash(s: Seq<char>) -> Seq<char> {
    if s.len() > 0 && s.last() == '/' {
        s.drop_last()
    } else {
        s
    }
}

/// The settings of one run, already parsed into plain values.
pub struct Config {
    /// The directories to search for duplicate files.
    pub search_path: Vec<String>,
    /// Whether computed hashes are kept in an archive for a future run.
    pub archive: bool,
    /// Whether a log of examined files is kept.
    pub log: bool,
    /// Whether progress output is suppressed.
    pub hide_prog: bool,
    /// Whether all ordinary output is suppressed; implies `hide_prog`.
    pub silent: bool,
    /// Inclusive lower bound on file size in bytes.
    pub ll_size: u128,
    /// Inclusive upper bound on file size in bytes.
    pub ul_size: u128,
    /// The number of worker threads.
    pub jobs: u64,
    /// Allowed file-name suffixes; a single `"*"` entry disables filtering.
    pub exts: Vec<String>,
    /// The directory that receives the report and any other output files.
    pub out_dir: String,
    /// A log file from an earlier run to resume from, or empty.
    pub res_file: String,
    /// A hash archive from an earlier run, or empty.
    pub prev_hash_file: String,
    /// Where the hash archive of this run is written.
    pub archive_file: String,
    /// Where the log of this run is written.
    pub log_file: String,
    /// Where the final report is written.
    pub report_file: String,
    /// Set when a resume file was supplied.
    pub resume: bool,
    /// Set when a prior hash archive was supplied.
    pub have_hash: bool,
    /// Set when the output directory came from the user rather than the
    /// working directory.
    pub user_set_dir: bool,
}

/// Join a directory, an infix, a timestamp and an extension into one path.
fn derived_file(dir: &String, mid: &str, stamp: &String, ext: &str) -> (r: String)
    ensures
        r@ == dir@ + mid@ + stamp@ + ext@,
{
    let mut s = dir.clone();
    s.append(mid);
    s.append(stamp.as_str());
    s.append(ext);
    s
}

impl Config {
    /// Assemble a configuration from parsed values. Absent options take their
    /// defaults: no size bounds, one worker, the wildcard extension list.
    /// Asking for silence also hides progress. The output file names carry
    /// the supplied timestamp; the log and archive names are hidden with a
    /// leading dot when they were not asked for, since they are opened either
    /// way and removed afterwards if unwanted.
    pub fn new(
        search_path: Vec<String>,
        archive: bool,
        log: bool,
        hide_prog: bool,
        silent: bool,
        ll_size: Option<u128>,
        ul_size: Option<u128>,
        jobs: Option<u64>,
        exts: Option<Vec<String>>,
        out_dir: String,
        user_set_dir: bool,
        res_file: Option<String>,
        prev_hash_file: Option<String>,
        stamp: String,
    ) -> (c: Config)
        ensures
            c.search_path == search_path,
            c.archive == archive,
            c.log == log,
            c.silent == silent,
            c.hide_prog == (hide_prog || silent),
            c.ll_size == (match ll_size {
                Some(v) => v,
                None => 0,
            }),
            c.ul_size == (match ul_size {
                Some(v) => v,
                None => u128::MAX,
            }),
            c.jobs == (match jobs {
                Some(v) => v,
                None => 1u64,
            }),
            match exts {
                Some(e) => c.exts == e,
                None => c.exts@.len() == 1 && c.exts@[0]@ == "*"@,
            },
            c.out_dir@ == strip_slash(out_dir@),
            match res_file {
                Some(f) => c.res_file == f && c.resume,
                None => c.res_file@ == Seq::<char>::empty() && !c.resume,
            },
            match prev_hash_file {
                Some(f) => c.prev_hash_file == f && c.have_hash,
                None => c.prev_hash_file@ == Seq::<char>::empty() && !c.have_hash,
            },
            c.archive_file@ == strip_slash(out_dir@) + (if archive {
                "/DuFF_"@
            } else {
                "/.DuFF_"@
            }) + stamp@ + ".arch"@,
            c.log_file@ == strip_slash(out_dir@) + (if log {
                "/DuFF_"@
            } else {
                "/.DuFF_"@
            }) + stamp@ + ".log"@,
            c.report_file@ == strip_slash(out_dir@) + "/DuFF_"@ + stamp@ + ".report"@,
            c.user_set_dir == user_set_dir,
    {
        let n = out_dir.as_str().unicode_len();
        let cleaned: String = if n > 0 && out_dir.as_str().get_char(n - 1) == '/' {
            out_dir.as_str().substring_char(0, n - 1).to_owned()
        } else {
            out_dir
        };
        proof {
            assert(cleaned@ =~= strip_slash(out_dir@));
        }
        let archive_file = if archive {
            derived_file(&cleaned, "/DuFF_", &stamp, ".arch")
        } else {
            derived_file(&cleaned, "/.DuFF_", &stamp, ".arch")
        };
        let log_file = if log {
            derived_file(&cleaned, "/DuFF_", &stamp, ".log")
        } else {
            derived_file(&cleaned, "/.DuFF_", &stamp, ".log")
        };
        let report_file = derived_file(&cleaned, "/DuFF_", &stamp, ".report");
        let (resume, res_file) = match res_file {
            Some(f) => (true, f),
            None => (false, String::new()),
        };
        let (have_hash, prev_hash_file) = match prev_hash_file {
            Some(f) => (true, f),
            None => (false, String::new()),
        };
        let exts: Vec<String> = match exts {
            Some(e) => e,
            None => {
                let mut v: Vec<String> = Vec::new();
                v.push(String::from_str("*"));
                v
            },
        };
        Config {
            search_path,
            archive,
            log,
            hide_prog: hide_prog || silent,
            silent,
            ll_size: match ll_size {
                Some(v) => v,
                None => 0,
            },
            ul_size: match ul_size {
                Some(v) => v,
                None => u128::MAX,
            },
            jobs: match jobs {
                Some(v) => v,
                None => 1,
            },
            exts,
            out_dir: cleaned,
            res_file,
            prev_hash_file,
            archive_file,
            log_file,
            report_file,
            resume,
            have_hash,
            user_set_dir,
        }
    }
}

} // verus!
