//! The per-file record carried through the pipeline: path, size, modification
//! time, and the content hash once it has been computed.

use vstd::prelude::*;

use crate::hashing::{
    absorbed, hash_text, hasher_finish, hasher_new, hasher_write, u128_to_string, xxh3_128_of,
};

verus! {

/// Mathematical model of a file record: every field as a plain value.
pub struct FileModel {
    pub path: Seq<char>,
    pub size: int,
    pub mtime: int,
    pub hash: Seq<char>,
}

/// A candidate file. The hash is the empty string until the content hasher
/// fills it in; equality considers size and hash alone.
#[derive(Debug)]
pub struct FileResult {
    /// The full path to the file.
    pub file_path: String,
    /// The size of the file in bytes.
    pub size: u128,
    /// The time the file was last modified, in seconds since the Unix epoch.
    pub mtime: i64,
    /// The content digest in decimal text form, empty until computed.
    pub hash: String,
}

impl View for FileResult {
    type V = FileModel;

    open spec fn view(&self) -> FileModel {
        FileModel {
            path: self.file_path@,
            size: self.size as int,
            mtime: self.mtime as int,
            hash: self.hash@,
        }
    }
}

/// The model of a single record, as a function value.
pub open spec fn to_model() -> spec_fn(FileResult) -> FileModel {
    |r: FileResult| r@
}

/// The models of a sequence of records.
pub open spec fn models(s: Seq<FileResult>) -> Seq<FileModel> {
    s.map_values(to_model())
}

impl Clone for FileResult {
    fn clone(&self) -> (res: Self)
        ensures
            res == *self,
    {
        FileResult {
            file_path: self.file_path.clone(),
            size: self.size,
            mtime: self.mtime,
            hash: self.hash.clone(),
        }
    }
}

impl PartialEq for FileResult {
    fn eq(&self, other: &Self) -> (r: bool) {
        self.size == other.size && self.hash == other.hash
    }
}

impl vstd::std_specs::cmp::PartialEqSpecImpl for FileResult {
    open spec fn obeys_eq_spec() -> bool {
        true
    }

    open spec fn eq_spec(&self, other: &Self) -> bool {
        self.size == other.size && self.hash@ == other.hash@
    }
}

impl FileResult {
    /// A fresh record carries an empty hash; the content hasher fills it in
    /// later.
    pub fn new(file_path: String, size: u128, mtime: i64) -> (r: FileResult)
        ensures
            r.file_path == file_path,
            r.size == size,
            r.mtime == mtime,
            r.hash@ == Seq::<char>::empty(),
    {
        FileResult { file_path, size, mtime, hash: String::new() }
    }

    /// Replace the stored hash; every other field is kept.
    pub fn update_hash(&mut self, hash: String)
        ensures
            final(self).file_path == old(self).file_path,
            final(self).size == old(self).size,
            final(self).mtime == old(self).mtime,
            final(self).hash == hash,
    {
        self.hash = hash;
    }

    /// Stream the file's bytes through the XXH3 accumulator in chunks of at
    /// most `buff_size` bytes, and store the finished digest in decimal form.
    pub fn calc_hash(&mut self, bytes: &Vec<u8>, buff_size: usize)
        requires
            buff_size >= 1,
        ensures
            final(self).file_path == old(self).file_path,
            final(self).size == old(self).size,
            final(self).mtime == old(self).mtime,
            final(self).hash@ == hash_text(bytes@),
    {
        let mut hasher = hasher_new();
        let mut i: usize = 0;
        while i < bytes.len()
            invariant
                buff_size >= 1,
                i <= bytes.len(),
                absorbed(&hasher) == bytes@.take(i as int),
            decreases bytes.len() - i,
        {
            let end = if bytes.len() - i < buff_size {
                bytes.len()
            } else {
                i + buff_size
            };
            let chunk = vstd::slice::slice_subrange(bytes.as_slice(), i, end);
            hasher_write(&mut hasher, chunk);
            proof {
                assert(bytes@.take(end as int) =~= bytes@.take(i as int) + bytes@.subrange(
                    i as int,
                    end as int,
                ));
            }
            i = end;
        }
        proof {
            assert(bytes@.take(bytes.len() as int) =~= bytes@);
        }
        let digest = hasher_finish(&hasher);
        let text = u128_to_string(digest);
        self.update_hash(text);
    }
}

} // verus!
