//! The optional hash cache: entries from an earlier run, indexed by size.
//! A stored hash is reused only for an exact (path, size, modification time)
//! match; modification-time equality is trusted as proof of unchanged
//! content.

use vstd::prelude::*;

use crate::file_result::{models, to_model, FileModel, FileResult};
use crate::grouping::{
    bucket, collect_by_size, key_is, keys_of, lemma_keys_of_contains, size_key, size_seen,
};

verus! {

broadcast use {Seq::group_seq_extra, vstd::seq_lib::group_filter_ensures};

/// A cache entry answers for a record when path, size and modification time
/// all agree.
pub open spec fn cache_match(e: FileModel, r: FileModel) -> bool {
    e.path == r.path && e.size == r.size && e.mtime == r.mtime
}

/// The first entry of `s` that answers for `r`, if any.
pub open spec fn first_match(s: Seq<FileModel>, r: FileModel) -> Option<FileModel>
    decreases s.len(),
{
    if s.len() == 0 {
        None
    } else if cache_match(s[0], r) {
        Some(s[0])
    } else {
        first_match(s.drop_first(), r)
    }
}

/// When no entry before index `i` answers, the first match of the whole
/// sequence is the first match of the rest.
proof fn lemma_first_match_skip(s: Seq<FileModel>, r: FileModel, i: int)
    requires
        0 <= i <= s.len(),
        forall|j: int| 0 <= j < i ==> !cache_match(s[j], r),
    ensures
        first_match(s, r) == first_match(s.skip(i), r),
    decreases i,
{
    if i > 0 {
        assert(!cache_match(s[0], r));
        lemma_first_match_skip(s.drop_first(), r, i - 1);
        assert(s.drop_first().skip(i - 1) =~= s.skip(i));
    } else {
        assert(s.skip(0) =~= s);
    }
}

/// A first match answers for the record; no first match means no entry
/// answers at all.
proof fn lemma_first_match_is_match(s: Seq<FileModel>, r: FileModel)
    ensures
        match first_match(s, r) {
            Some(e) => s.contains(e) && cache_match(e, r),
            None => forall|j: int| 0 <= j < s.len() ==> !cache_match(s[j], r),
        },
    decreases s.len(),
{
    if s.len() == 0 {
    } else if cache_match(s[0], r) {
        assert(s.contains(s[0]));
    } else {
        let t = s.drop_first();
        lemma_first_match_is_match(t, r);
        match first_match(s, r) {
            Some(e) => {
                let w = choose|w: int| 0 <= w < t.len() && t[w] == e;
                assert(s[w + 1] == e);
                assert(s.contains(e));
            },
            None => {
                assert forall|j: int| 0 <= j < s.len() implies !cache_match(s[j], r) by {
                    if j > 0 {
                        assert(t[j - 1] == s[j]);
                    }
                }
            },
        }
    }
}

/// Every answering entry shares the record's size, so the search may be
/// confined to the record's size bucket.
proof fn lemma_first_match_bucket(s: Seq<FileModel>, r: FileModel)
    ensures
        first_match(s, r) == first_match(bucket(s, size_key(), r.size), r),
    decreases s.len(),
{
    if s.len() == 0 {
        assert(bucket(s, size_key(), r.size) =~= Seq::<FileModel>::empty()) by {
            reveal(Seq::filter);
        }
    } else {
        let t = s.drop_first();
        let x = s[0];
        lemma_first_match_bucket(t, r);
        assert(s =~= seq![x] + t);
        t.lemma_filter_prepend(x, key_is(size_key(), r.size));
        if key_is(size_key(), r.size)(x) {
            let b = bucket(s, size_key(), r.size);
            assert(b == seq![x] + bucket(t, size_key(), r.size));
            assert(b[0] == x);
            if cache_match(x, r) {
            } else {
                assert(b.drop_first() =~= bucket(t, size_key(), r.size));
            }
        } else {
            assert(!cache_match(x, r));
            assert(bucket(s, size_key(), r.size) =~= bucket(t, size_key(), r.size));
        }
    }
}

/// One size's worth of cache entries.
struct CacheBucket {
    size: u128,
    entries: Vec<FileResult>,
}

/// The key of one cache bucket, as a function value.
spec fn cache_bucket_key() -> spec_fn(CacheBucket) -> int {
    |b: CacheBucket| b.size as int
}

/// The keys of a sequence of cache buckets.
spec fn cache_keys(bs: Seq<CacheBucket>) -> Seq<int> {
    bs.map_values(cache_bucket_key())
}

/// The preloaded hash cache, indexed by file size.
pub struct HashCache {
    buckets: Vec<CacheBucket>,
    loaded: Ghost<Seq<FileModel>>,
}

impl HashCache {
    /// The entries the cache was loaded from, in their original order.
    pub closed spec fn source(&self) -> Seq<FileModel> {
        self.loaded@
    }

    /// There is one bucket for each size that occurs, holding exactly the
    /// entries of that size, in load order.
    #[verifier::type_invariant]
    closed spec fn wf(self) -> bool {
        &&& cache_keys(self.buckets@) == keys_of(self.loaded@, size_key())
        &&& forall|t: int|
            0 <= t < self.buckets@.len() ==> models((#[trigger] self.buckets@[t]).entries@)
                == bucket(self.loaded@, size_key(), self.buckets@[t].size as int)
    }

    /// Preload cache entries into buckets keyed by size.
    pub fn load(entries: &Vec<FileResult>) -> (c: HashCache)
        ensures
            c.source() == models(entries@),
    {
        let ghost m = models(entries@);
        let mut buckets: Vec<CacheBucket> = Vec::new();
        let mut i: usize = 0;
        while i < entries.len()
            invariant
                i <= entries@.len(),
                m == models(entries@),
                cache_keys(buckets@) == keys_of(m.take(i as int), size_key()),
                forall|t: int|
                    0 <= t < buckets@.len() ==> models((#[trigger] buckets@[t]).entries@) == bucket(
                        m,
                        size_key(),
                        buckets@[t].size as int,
                    ),
            decreases entries@.len() - i,
        {
            let ghost prev = keys_of(m.take(i as int), size_key());
            proof {
                assert(m[i as int] == to_model()(entries@[i as int]));
                m.lemma_take_succ_push(i as int);
                assert(m.take(i as int).push(m[i as int]).drop_last() =~= m.take(i as int));
                assert(keys_of(m.take(i + 1), size_key()) == keys_of(
                    m.take(i as int).push(m[i as int]),
                    size_key(),
                ));
            }
            let seen = size_seen(entries, i);
            if !seen {
                let sz = entries[i].size;
                let ghost k: int = size_key()(m[i as int]);
                let es = collect_by_size(entries, sz);
                let b = CacheBucket { size: sz, entries: es };
                proof {
                    assert(k == sz as int);
                    assert(keys_of(m.take(i + 1), size_key()) == prev.push(k));
                    buckets@.lemma_push_map_commute(cache_bucket_key(), b);
                }
                buckets.push(b);
            }
            i = i + 1;
        }
        proof {
            m.lemma_take_len();
        }
        HashCache { buckets, loaded: Ghost(m) }
    }

    /// Look the record up by size, then path and modification time. The
    /// result is the stored hash of the first loaded entry whose path, size
    /// and modification time all equal the record's — and nothing when no
    /// entry matches exactly, so that the hash is then recomputed.
    pub fn lookup(&self, r: &FileResult) -> (h: Option<String>)
        ensures
            match first_match(self.source(), r@) {
                Some(e) => h matches Some(hs) && hs@ == e.hash,
                None => h is None,
            },
    {
        proof {
            use_type_invariant(self);
            lemma_first_match_bucket(self.loaded@, r@);
        }
        let ghost k: int = r.size as int;
        let mut bi: usize = 0;
        while bi < self.buckets.len()
            invariant
                bi <= self.buckets@.len(),
                k == r.size as int,
                self.wf(),
                first_match(self.loaded@, r@) == first_match(
                    bucket(self.loaded@, size_key(), r@.size),
                    r@,
                ),
                forall|t: int| 0 <= t < bi ==> (#[trigger] self.buckets@[t]).size as int != k,
            decreases self.buckets@.len() - bi,
        {
            if self.buckets[bi].size == r.size {
                let es = &self.buckets[bi].entries;
                let ghost bseq = models(es@);
                proof {
                    assert(bseq == bucket(self.loaded@, size_key(), k));
                    assert(r@.size == k);
                }
                let mut j: usize = 0;
                while j < es.len()
                    invariant
                        j <= es@.len(),
                        bseq == models(es@),
                        bseq == bucket(self.loaded@, size_key(), r@.size),
                        first_match(self.loaded@, r@) == first_match(bseq, r@),
                        forall|t: int| 0 <= t < j ==> !cache_match(bseq[t], r@),
                    decreases es@.len() - j,
                {
                    proof {
                        assert(bseq[j as int] == to_model()(es@[j as int]));
                    }
                    if es[j].file_path == r.file_path && es[j].mtime == r.mtime {
                        proof {
                            self.loaded@.lemma_filter_pred(key_is(size_key(), r@.size), j as int);
                            assert(cache_match(bseq[j as int], r@));
                            lemma_first_match_skip(bseq, r@, j as int);
                            assert(bseq.skip(j as int)[0] == bseq[j as int]);
                            assert(first_match(bseq, r@) == Some(bseq[j as int]));
                        }
                        return Some(es[j].hash.clone());
                    }
                    proof {
                        assert(!cache_match(bseq[j as int], r@)) by {
                            if cache_match(bseq[j as int], r@) {
                                assert(bseq[j as int].path == r@.path);
                                assert(bseq[j as int].mtime == r@.mtime);
                            }
                        }
                    }
                    j = j + 1;
                }
                proof {
                    lemma_first_match_skip(bseq, r@, bseq.len() as int);
                    assert(bseq.skip(bseq.len() as int) =~= Seq::<FileModel>::empty());
                    assert(first_match(bseq, r@) is None);
                }
                return None;
            }
            bi = bi + 1;
        }
        proof {
            lemma_keys_of_contains(self.loaded@, size_key(), k);
            assert(!keys_of(self.loaded@, size_key()).contains(k)) by {
                if keys_of(self.loaded@, size_key()).contains(k) {
                    let w = choose|w: int|
                        0 <= w < cache_keys(self.buckets@).len() && cache_keys(self.buckets@)[w]
                            == k;
                    assert(cache_keys(self.buckets@)[w] == cache_bucket_key()(self.buckets@[w]));
                }
            }
            lemma_first_match_is_match(self.loaded@, r@);
            match first_match(self.loaded@, r@) {
                Some(e) => {
                    let w = choose|w: int| 0 <= w < self.loaded@.len() && self.loaded@[w] == e;
                    assert(size_key()(self.loaded@[w]) == k);
                },
                None => {},
            }
        }
        None
    }
}

} // verus!
