//! The two grouping stages: bucket records by size, then by (size, hash),
//! and keep only buckets with at least two members. Both stages are pinned to
//! one mathematical grouping function, so their laws are proved once.

use vstd::prelude::*;

use vstd::multiset::Multiset;

use crate::file_result::{models, to_model, FileModel, FileResult};

verus! {

broadcast use {Seq::group_seq_extra, vstd::seq_lib::group_filter_ensures};

/// The predicate "this record's key is `k`", as a function value.
pub open spec fn key_is<K>(key: spec_fn(FileModel) -> K, k: K) -> spec_fn(FileModel) -> bool {
    |r: FileModel| key(r) == k
}

/// The distinct keys of `s` under `key`, in order of first occurrence.
pub open spec fn keys_of<K>(s: Seq<FileModel>, key: spec_fn(FileModel) -> K) -> Seq<K>
    decreases s.len(),
{
    if s.len() == 0 {
        Seq::empty()
    } else {
        let prev = keys_of(s.drop_last(), key);
        if prev.contains(key(s.last())) {
            prev
        } else {
            prev.push(key(s.last()))
        }
    }
}

/// All records of `s` whose key is `k`, in their original order.
pub open spec fn bucket<K>(s: Seq<FileModel>, key: spec_fn(FileModel) -> K, k: K) -> Seq<
    FileModel,
> {
    s.filter(key_is(key, k))
}

/// The predicate "at least two records of `s` carry this key".
pub open spec fn is_dup<K>(s: Seq<FileModel>, key: spec_fn(FileModel) -> K) -> spec_fn(K) -> bool {
    |k: K| bucket(s, key, k).len() >= 2
}

/// The bucket of a key, as a function value.
pub open spec fn bucket_of<K>(s: Seq<FileModel>, key: spec_fn(FileModel) -> K) -> spec_fn(K) -> Seq<
    FileModel,
> {
    |k: K| bucket(s, key, k)
}

/// The duplicated keys of `s`, in order of first occurrence.
pub open spec fn dup_keys<K>(s: Seq<FileModel>, key: spec_fn(FileModel) -> K) -> Seq<K> {
    keys_of(s, key).filter(is_dup(s, key))
}

/// The duplicate groups of `s` under `key`: the bucket of each duplicated
/// key, in order of the key's first occurrence.
pub open spec fn grouping<K>(s: Seq<FileModel>, key: spec_fn(FileModel) -> K) -> Seq<
    Seq<FileModel>,
> {
    dup_keys(s, key).map_values(bucket_of(s, key))
}

/// The key of the size stage: the file size alone.
pub open spec fn size_key() -> spec_fn(FileModel) -> int {
    |r: FileModel| r.size
}

/// The key of the hash stage: size and content hash together.
pub open spec fn size_hash_key() -> spec_fn(FileModel) -> (int, Seq<char>) {
    |r: FileModel| (r.size, r.hash)
}

/// A key occurs among the distinct keys of `s` exactly when some record of
/// `s` carries it.
pub proof fn lemma_keys_of_contains<K>(s: Seq<FileModel>, key: spec_fn(FileModel) -> K, k: K)
    ensures
        keys_of(s, key).contains(k) <==> (exists|j: int| 0 <= j < s.len() && key(s[j]) == k),
    decreases s.len(),
{
    if s.len() == 0 {
    } else {
        let t = s.drop_last();
        lemma_keys_of_contains(t, key, k);
        let prev = keys_of(t, key);
        if keys_of(s, key).contains(k) {
            if prev.contains(k) {
                let j = choose|j: int| 0 <= j < t.len() && key(t[j]) == k;
                assert(key(s[j]) == k);
            } else {
                assert(keys_of(s, key) == prev.push(key(s.last())));
                let i = choose|i: int| 0 <= i < keys_of(s, key).len() && keys_of(s, key)[i] == k;
                if i < prev.len() {
                    assert(prev[i] == k);
                    assert(prev.contains(k));
                } else {
                    assert(k == key(s.last()));
                    assert(key(s[s.len() - 1]) == k);
                }
            }
        }
        if exists|j: int| 0 <= j < s.len() && key(s[j]) == k {
            let j = choose|j: int| 0 <= j < s.len() && key(s[j]) == k;
            if j < s.len() - 1 {
                assert(key(t[j]) == k);
                assert(prev.contains(k));
                if !prev.contains(key(s.last())) {
                    let i = choose|i: int| 0 <= i < prev.len() && prev[i] == k;
                    assert(prev.push(key(s.last()))[i] == k);
                }
            } else {
                let last_key = key(s.last());
                assert(last_key == k);
                if prev.contains(k) {
                } else {
                    assert(prev.push(last_key)[prev.len() as int] == k);
                }
            }
        }
    }
}

/// A size-stage duplicate group: all records of one duplicated size.
pub struct SizeGroup {
    /// The shared file size in bytes.
    pub size: u128,
    /// The records of that size, in arrival order; always at least two.
    pub members: Vec<FileResult>,
}

/// The model of one size group, as a function value.
pub open spec fn size_group_model() -> spec_fn(SizeGroup) -> Seq<FileModel> {
    |g: SizeGroup| models(g.members@)
}

/// The models of a sequence of size groups.
pub open spec fn size_group_models(gs: Seq<SizeGroup>) -> Seq<Seq<FileModel>> {
    gs.map_values(size_group_model())
}

/// The key of one size group, as a function value.
pub open spec fn size_group_key() -> spec_fn(SizeGroup) -> int {
    |g: SizeGroup| g.size as int
}

/// The keys of a sequence of size groups.
pub open spec fn size_group_keys(gs: Seq<SizeGroup>) -> Seq<int> {
    gs.map_values(size_group_key())
}

/// Whether some record before index `i` has the same size as the record at
/// `i`; equivalently, whether that size occurred among the earlier records.
pub(crate) fn size_seen(records: &Vec<FileResult>, i: usize) -> (seen: bool)
    requires
        i < records@.len(),
    ensures
        seen == keys_of(models(records@).take(i as int), size_key()).contains(
            size_key()(models(records@)[i as int]),
        ),
{
    let ghost m = models(records@);
    let ghost k = size_key()(m[i as int]);
    let target = records[i].size;
    proof {
        assert(m[i as int] == to_model()(records@[i as int]));
        assert(k == target as int);
    }
    let mut j: usize = 0;
    while j < i
        invariant
            j <= i,
            i < records@.len(),
            m == models(records@),
            target == records@[i as int].size,
            k == target as int,
            forall|t: int| 0 <= t < j ==> m[t].size != k,
        decreases i - j,
    {
        if records[j].size == target {
            proof {
                assert(m[j as int] == to_model()(records@[j as int]));
                assert(size_key()(m.take(i as int)[j as int]) == k);
                lemma_keys_of_contains(m.take(i as int), size_key(), k);
            }
            return true;
        }
        proof {
            assert(m[j as int] == to_model()(records@[j as int]));
        }
        j = j + 1;
    }
    proof {
        lemma_keys_of_contains(m.take(i as int), size_key(), k);
        assert forall|t: int| 0 <= t < i implies size_key()(m.take(i as int)[t]) != k by {
            assert(m.take(i as int)[t] == m[t]);
        }
    }
    false
}

/// All records whose size is `sz`, in arrival order.
pub(crate) fn collect_by_size(records: &Vec<FileResult>, sz: u128) -> (members: Vec<FileResult>)
    ensures
        models(members@) == bucket(models(records@), size_key(), sz as int),
{
    let ghost m = models(records@);
    let ghost k: int = sz as int;
    let mut members: Vec<FileResult> = Vec::new();
    let mut i: usize = 0;
    while i < records.len()
        invariant
            i <= records@.len(),
            m == models(records@),
            k == sz as int,
            models(members@) == bucket(m.take(i as int), size_key(), k),
        decreases records@.len() - i,
    {
        proof {
            assert(m[i as int] == to_model()(records@[i as int]));
            m.lemma_take_succ_push(i as int);
            m.take(i as int).lemma_filter_push(m[i as int], key_is(size_key(), k));
        }
        if records[i].size == sz {
            let r = records[i].clone();
            proof {
                members@.lemma_push_map_commute(to_model(), r);
            }
            members.push(r);
        }
        i = i + 1;
    }
    proof {
        m.lemma_take_len();
    }
    members
}

/// The size grouper: bucket the records by exact size and keep every bucket
/// with at least two members. The groups carry the duplicated sizes in order
/// of first occurrence, and each group holds exactly the records of its size,
/// in arrival order.
pub fn group_by_size(records: &Vec<FileResult>) -> (out: Vec<SizeGroup>)
    ensures
        size_group_models(out@) == grouping(models(records@), size_key()),
        size_group_keys(out@) == dup_keys(models(records@), size_key()),
        forall|g: int| 0 <= g < out@.len() ==> (#[trigger] out@[g]).members@.len() >= 2,
{
    let ghost m = models(records@);
    let ghost key = size_key();
    let ghost d = is_dup(m, key);
    let ghost b = bucket_of(m, key);
    let mut out: Vec<SizeGroup> = Vec::new();
    let mut i: usize = 0;
    while i < records.len()
        invariant
            i <= records@.len(),
            m == models(records@),
            key == size_key(),
            d == is_dup(m, key),
            b == bucket_of(m, key),
            size_group_models(out@) == keys_of(m.take(i as int), key).filter(d).map_values(b),
            size_group_keys(out@) == keys_of(m.take(i as int), key).filter(d),
            forall|g: int| 0 <= g < out@.len() ==> (#[trigger] out@[g]).members@.len() >= 2,
        decreases records@.len() - i,
    {
        let ghost prev = keys_of(m.take(i as int), key);
        proof {
            assert(m[i as int] == to_model()(records@[i as int]));
            m.lemma_take_succ_push(i as int);
            assert(m.take(i as int).push(m[i as int]).drop_last() =~= m.take(i as int));
            assert(keys_of(m.take(i + 1), key) == keys_of(m.take(i as int).push(m[i as int]), key));
        }
        let seen = size_seen(records, i);
        if !seen {
            let sz = records[i].size;
            let ghost k: int = key(m[i as int]);
            proof {
                assert(k == sz as int);
                assert(keys_of(m.take(i + 1), key) == prev.push(k));
                prev.lemma_filter_push(k, d);
            }
            let members = collect_by_size(records, sz);
            proof {
                assert(models(members@).len() == members@.len());
                assert(d(k) == (bucket(m, key, k).len() >= 2));
                assert(b(k) == bucket(m, key, k));
            }
            if members.len() >= 2 {
                let g = SizeGroup { size: sz, members };
                proof {
                    out@.lemma_push_map_commute(size_group_model(), g);
                    out@.lemma_push_map_commute(size_group_key(), g);
                    prev.filter(d).lemma_push_map_commute(b, k);
                }
                out.push(g);
            }
        }
        i = i + 1;
    }
    proof {
        m.lemma_take_len();
    }
    out
}

/// A final duplicate group: all records of one duplicated (size, hash) key.
pub struct DuplicateGroup {
    /// The shared file size in bytes.
    pub size: u128,
    /// The shared content hash in decimal text form.
    pub hash: String,
    /// The records of that size and hash, in arrival order; always at least
    /// two.
    pub members: Vec<FileResult>,
}

/// The model of one duplicate group, as a function value.
pub open spec fn dup_group_model() -> spec_fn(DuplicateGroup) -> Seq<FileModel> {
    |g: DuplicateGroup| models(g.members@)
}

/// The models of a sequence of duplicate groups.
pub open spec fn dup_group_models(gs: Seq<DuplicateGroup>) -> Seq<Seq<FileModel>> {
    gs.map_values(dup_group_model())
}

/// The key of one duplicate group, as a function value.
pub open spec fn dup_group_key() -> spec_fn(DuplicateGroup) -> (int, Seq<char>) {
    |g: DuplicateGroup| (g.size as int, g.hash@)
}

/// The keys of a sequence of duplicate groups.
pub open spec fn dup_group_keys(gs: Seq<DuplicateGroup>) -> Seq<(int, Seq<char>)> {
    gs.map_values(dup_group_key())
}

/// Whether some record before index `i` has the same size and hash as the
/// record at `i`.
fn size_hash_seen(records: &Vec<FileResult>, i: usize) -> (seen: bool)
    requires
        i < records@.len(),
    ensures
        seen == keys_of(models(records@).take(i as int), size_hash_key()).contains(
            size_hash_key()(models(records@)[i as int]),
        ),
{
    let ghost m = models(records@);
    let ghost k = size_hash_key()(m[i as int]);
    proof {
        assert(m[i as int] == to_model()(records@[i as int]));
        assert(k == (records@[i as int].size as int, records@[i as int].hash@));
    }
    let mut j: usize = 0;
    while j < i
        invariant
            j <= i,
            i < records@.len(),
            m == models(records@),
            k == (records@[i as int].size as int, records@[i as int].hash@),
            forall|t: int| 0 <= t < j ==> (#[trigger] m[t].size, m[t].hash) != k,
        decreases i - j,
    {
        if records[j].size == records[i].size && records[j].hash == records[i].hash {
            proof {
                assert(m[j as int] == to_model()(records@[j as int]));
                assert(size_hash_key()(m.take(i as int)[j as int]) == k);
                lemma_keys_of_contains(m.take(i as int), size_hash_key(), k);
            }
            return true;
        }
        proof {
            assert(m[j as int] == to_model()(records@[j as int]));
        }
        j = j + 1;
    }
    proof {
        lemma_keys_of_contains(m.take(i as int), size_hash_key(), k);
        assert forall|t: int| 0 <= t < i implies size_hash_key()(m.take(i as int)[t]) != k by {
            assert(m.take(i as int)[t] == m[t]);
            assert(m[t].size == m[t].size && m[t].hash == m[t].hash);
        }
    }
    false
}

/// All records whose size is `sz` and whose hash is `hs`, in arrival order.
fn collect_by_size_hash(records: &Vec<FileResult>, sz: u128, hs: &String) -> (members: Vec<
    FileResult,
>)
    ensures
        models(members@) == bucket(models(records@), size_hash_key(), (sz as int, hs@)),
{
    let ghost m = models(records@);
    let ghost k: (int, Seq<char>) = (sz as int, hs@);
    let mut members: Vec<FileResult> = Vec::new();
    let mut i: usize = 0;
    while i < records.len()
        invariant
            i <= records@.len(),
            m == models(records@),
            k == (sz as int, hs@),
            models(members@) == bucket(m.take(i as int), size_hash_key(), k),
        decreases records@.len() - i,
    {
        proof {
            assert(m[i as int] == to_model()(records@[i as int]));
            m.lemma_take_succ_push(i as int);
            m.take(i as int).lemma_filter_push(m[i as int], key_is(size_hash_key(), k));
        }
        if records[i].size == sz && records[i].hash == *hs {
            let r = records[i].clone();
            proof {
                members@.lemma_push_map_commute(to_model(), r);
            }
            members.push(r);
        }
        i = i + 1;
    }
    proof {
        m.lemma_take_len();
    }
    members
}

/// The hash grouper: bucket hashed records by (size, hash) and keep every
/// bucket with at least two members — the final duplicate groups. The groups
/// carry the duplicated keys in order of first occurrence, and each group
/// holds exactly the records of its key, in arrival order.
pub fn group_by_hash(records: &Vec<FileResult>) -> (out: Vec<DuplicateGroup>)
    ensures
        dup_group_models(out@) == grouping(models(records@), size_hash_key()),
        dup_group_keys(out@) == dup_keys(models(records@), size_hash_key()),
        forall|g: int| 0 <= g < out@.len() ==> (#[trigger] out@[g]).members@.len() >= 2,
{
    let ghost m = models(records@);
    let ghost key = size_hash_key();
    let ghost d = is_dup(m, key);
    let ghost b = bucket_of(m, key);
    let mut out: Vec<DuplicateGroup> = Vec::new();
    let mut i: usize = 0;
    while i < records.len()
        invariant
            i <= records@.len(),
            m == models(records@),
            key == size_hash_key(),
            d == is_dup(m, key),
            b == bucket_of(m, key),
            dup_group_models(out@) == keys_of(m.take(i as int), key).filter(d).map_values(b),
            dup_group_keys(out@) == keys_of(m.take(i as int), key).filter(d),
            forall|g: int| 0 <= g < out@.len() ==> (#[trigger] out@[g]).members@.len() >= 2,
        decreases records@.len() - i,
    {
        let ghost prev = keys_of(m.take(i as int), key);
        proof {
            assert(m[i as int] == to_model()(records@[i as int]));
            m.lemma_take_succ_push(i as int);
            assert(m.take(i as int).push(m[i as int]).drop_last() =~= m.take(i as int));
            assert(keys_of(m.take(i + 1), key) == keys_of(m.take(i as int).push(m[i as int]), key));
        }
        let seen = size_hash_seen(records, i);
        if !seen {
            let sz = records[i].size;
            let hs = records[i].hash.clone();
            let ghost k: (int, Seq<char>) = key(m[i as int]);
            proof {
                assert(k == (sz as int, hs@));
                assert(keys_of(m.take(i + 1), key) == prev.push(k));
                prev.lemma_filter_push(k, d);
            }
            let members = collect_by_size_hash(records, sz, &hs);
            proof {
                assert(models(members@).len() == members@.len());
                assert(d(k) == (bucket(m, key, k).len() >= 2));
                assert(b(k) == bucket(m, key, k));
            }
            if members.len() >= 2 {
                let g = DuplicateGroup { size: sz, hash: hs, members };
                proof {
                    out@.lemma_push_map_commute(dup_group_model(), g);
                    out@.lemma_push_map_commute(dup_group_key(), g);
                    prev.filter(d).lemma_push_map_commute(b, k);
                }
                out.push(g);
            }
        }
        i = i + 1;
    }
    proof {
        m.lemma_take_len();
    }
    out
}

/// Each group is the bucket of its key, and that bucket has at least two
/// members.
pub proof fn lemma_grouping_index<K>(s: Seq<FileModel>, key: spec_fn(FileModel) -> K, g: int)
    requires
        0 <= g < grouping(s, key).len(),
    ensures
        grouping(s, key)[g] == bucket(s, key, dup_keys(s, key)[g]),
        bucket(s, key, dup_keys(s, key)[g]).len() >= 2,
{
    let ks = keys_of(s, key);
    assert(is_dup(s, key)(dup_keys(s, key)[g])) by {
        ks.lemma_filter_pred(is_dup(s, key), g);
    }
}

/// Law: every emitted group has at least two members, at either stage.
pub proof fn lemma_groups_have_two<K>(s: Seq<FileModel>, key: spec_fn(FileModel) -> K, g: int)
    requires
        0 <= g < grouping(s, key).len(),
    ensures
        grouping(s, key)[g].len() >= 2,
{
    lemma_grouping_index(s, key, g);
}

/// Law: any two records that stand in one group carry the same key.
pub proof fn lemma_group_members_share_key<K>(
    s: Seq<FileModel>,
    key: spec_fn(FileModel) -> K,
    g: int,
    r1: FileModel,
    r2: FileModel,
)
    requires
        0 <= g < grouping(s, key).len(),
        grouping(s, key)[g].contains(r1),
        grouping(s, key)[g].contains(r2),
    ensures
        key(r1) == key(r2),
{
    lemma_grouping_index(s, key, g);
    let k = dup_keys(s, key)[g];
    let bkt = bucket(s, key, k);
    let i1 = choose|i: int| 0 <= i < bkt.len() && bkt[i] == r1;
    let i2 = choose|i: int| 0 <= i < bkt.len() && bkt[i] == r2;
    s.lemma_filter_pred(key_is(key, k), i1);
    s.lemma_filter_pred(key_is(key, k), i2);
}

/// Law: records of distinct sizes never co-occur in a group, at either the
/// size stage or the hash stage.
pub proof fn lemma_distinct_sizes_apart(s: Seq<FileModel>, g: int, r1: FileModel, r2: FileModel)
    requires
        r1.size != r2.size,
    ensures
        !(0 <= g < grouping(s, size_key()).len() && grouping(s, size_key())[g].contains(r1)
            && grouping(s, size_key())[g].contains(r2)),
        !(0 <= g < grouping(s, size_hash_key()).len() && grouping(s, size_hash_key())[g].contains(
            r1,
        ) && grouping(s, size_hash_key())[g].contains(r2)),
{
    if 0 <= g < grouping(s, size_key()).len() && grouping(s, size_key())[g].contains(r1)
        && grouping(s, size_key())[g].contains(r2) {
        lemma_group_members_share_key(s, size_key(), g, r1, r2);
    }
    if 0 <= g < grouping(s, size_hash_key()).len() && grouping(s, size_hash_key())[g].contains(r1)
        && grouping(s, size_hash_key())[g].contains(r2) {
        lemma_group_members_share_key(s, size_hash_key(), g, r1, r2);
    }
}

/// Law: records with equal size but differing hashes stand in different
/// final groups.
pub proof fn lemma_differing_hash_apart(s: Seq<FileModel>, g: int, r1: FileModel, r2: FileModel)
    requires
        r1.hash != r2.hash,
    ensures
        !(0 <= g < grouping(s, size_hash_key()).len() && grouping(s, size_hash_key())[g].contains(
            r1,
        ) && grouping(s, size_hash_key())[g].contains(r2)),
{
    if 0 <= g < grouping(s, size_hash_key()).len() && grouping(s, size_hash_key())[g].contains(r1)
        && grouping(s, size_hash_key())[g].contains(r2) {
        lemma_group_members_share_key(s, size_hash_key(), g, r1, r2);
    }
}

/// A filtered sequence keeps at least two elements when two distinct
/// positions satisfy the predicate.
proof fn lemma_filter_two<A>(s: Seq<A>, p: spec_fn(A) -> bool, i: int, j: int)
    requires
        0 <= i < j < s.len(),
        p(s[i]),
        p(s[j]),
    ensures
        s.filter(p).len() >= 2,
    decreases s.len(),
{
    let t = s.drop_last();
    assert(s =~= t.push(s.last()));
    t.lemma_filter_push(s.last(), p);
    if j == s.len() - 1 {
        assert(t[i] == s[i]);
        t.lemma_filter_contains(p, i);
        let w = choose|w: int| 0 <= w < t.filter(p).len() && t.filter(p)[w] == t[i];
        assert(t.filter(p).len() >= 1);
    } else {
        assert(t[i] == s[i]);
        assert(t[j] == s[j]);
        lemma_filter_two(t, p, i, j);
    }
}

/// Law: two records at distinct positions with equal keys always land in one
/// common group.
pub proof fn lemma_equal_key_same_group<K>(
    s: Seq<FileModel>,
    key: spec_fn(FileModel) -> K,
    i: int,
    j: int,
)
    requires
        0 <= i < s.len(),
        0 <= j < s.len(),
        i != j,
        key(s[i]) == key(s[j]),
    ensures
        exists|g: int|
            0 <= g < grouping(s, key).len() && (#[trigger] grouping(s, key)[g]).contains(s[i])
                && grouping(s, key)[g].contains(s[j]),
{
    let a = if i < j {
        i
    } else {
        j
    };
    let b = if i < j {
        j
    } else {
        i
    };
    let k = key(s[i]);
    assert(key_is(key, k)(s[a]));
    assert(key_is(key, k)(s[b]));
    lemma_filter_two(s, key_is(key, k), a, b);
    s.lemma_filter_contains(key_is(key, k), i);
    s.lemma_filter_contains(key_is(key, k), j);
    assert(bucket(s, key, k).len() >= 2);
    lemma_keys_of_contains(s, key, k);
    let ks = keys_of(s, key);
    let w = choose|w: int| 0 <= w < ks.len() && ks[w] == k;
    assert(is_dup(s, key)(k));
    ks.lemma_filter_contains(is_dup(s, key), w);
    let dk = dup_keys(s, key);
    let g = choose|g: int| 0 <= g < dk.len() && dk[g] == k;
    lemma_grouping_index(s, key, g);
    assert(grouping(s, key)[g].contains(s[i]));
    assert(grouping(s, key)[g].contains(s[j]));
}

/// Law: two records with equal size and equal hash always land in one common
/// final group.
pub proof fn lemma_equal_size_hash_same_group(s: Seq<FileModel>, i: int, j: int)
    requires
        0 <= i < s.len(),
        0 <= j < s.len(),
        i != j,
        s[i].size == s[j].size,
        s[i].hash == s[j].hash,
    ensures
        exists|g: int|
            0 <= g < grouping(s, size_hash_key()).len() && (#[trigger] grouping(
                s,
                size_hash_key(),
            )[g]).contains(s[i]) && grouping(s, size_hash_key())[g].contains(s[j]),
{
    lemma_equal_key_same_group(s, size_hash_key(), i, j);
}

/// Filtering commutes with passing from a sequence to its multiset.
proof fn lemma_filter_to_multiset<A>(s: Seq<A>, p: spec_fn(A) -> bool)
    ensures
        s.filter(p).to_multiset() == s.to_multiset().filter(p),
    decreases s.len(),
{
    broadcast use vstd::seq_lib::group_to_multiset_ensures;
    broadcast use vstd::multiset::group_multiset_axioms;

    if s.len() == 0 {
        assert(s.filter(p) =~= Seq::<A>::empty()) by {
            reveal(Seq::filter);
        }
        assert(s.to_multiset() =~= Multiset::<A>::empty()) by {
            assert(s.to_multiset().len() == 0);
            vstd::multiset::lemma_multiset_empty_len(s.to_multiset());
        }
        assert(Multiset::<A>::empty().filter(p) =~= Multiset::<A>::empty());
    } else {
        let t = s.drop_last();
        let x = s.last();
        lemma_filter_to_multiset(t, p);
        assert(s =~= t.push(x));
        t.lemma_filter_push(x, p);
        assert(t.push(x).to_multiset() == t.to_multiset().insert(x));
        if p(x) {
            assert(t.filter(p).push(x).to_multiset() == t.filter(p).to_multiset().insert(x));
            assert(t.to_multiset().insert(x).filter(p) =~= t.to_multiset().filter(p).insert(x)) by {
                assert forall|v: A|
                    t.to_multiset().insert(x).filter(p).count(v) == t.to_multiset().filter(
                        p,
                    ).insert(x).count(v) by {
                    vstd::multiset::lemma_insert_increases_count_by_1(t.to_multiset(), x);
                    vstd::multiset::lemma_insert_increases_count_by_1(
                        t.to_multiset().filter(p),
                        x,
                    );
                    if v != x {
                        vstd::multiset::lemma_insert_other_elements_unchanged(
                            t.to_multiset(),
                            x,
                            v,
                        );
                        vstd::multiset::lemma_insert_other_elements_unchanged(
                            t.to_multiset().filter(p),
                            x,
                            v,
                        );
                    }
                }
            }
        } else {
            assert(t.to_multiset().insert(x).filter(p) =~= t.to_multiset().filter(p)) by {
                assert forall|v: A|
                    t.to_multiset().insert(x).filter(p).count(v) == t.to_multiset().filter(
                        p,
                    ).count(v) by {
                    vstd::multiset::lemma_insert_increases_count_by_1(t.to_multiset(), x);
                    if v != x {
                        vstd::multiset::lemma_insert_other_elements_unchanged(
                            t.to_multiset(),
                            x,
                            v,
                        );
                    }
                }
            }
        }
    }
}

/// A key's bucket, taken as a multiset, depends only on the records as a
/// multiset.
proof fn lemma_bucket_multiset<K>(
    s1: Seq<FileModel>,
    s2: Seq<FileModel>,
    key: spec_fn(FileModel) -> K,
    k: K,
)
    requires
        s1.to_multiset() == s2.to_multiset(),
    ensures
        bucket(s1, key, k).to_multiset() == bucket(s2, key, k).to_multiset(),
        bucket(s1, key, k).len() == bucket(s2, key, k).len(),
{
    broadcast use vstd::seq_lib::group_to_multiset_ensures;

    lemma_filter_to_multiset(s1, key_is(key, k));
    lemma_filter_to_multiset(s2, key_is(key, k));
    assert(bucket(s1, key, k).to_multiset().len() == bucket(s1, key, k).len());
    assert(bucket(s2, key, k).to_multiset().len() == bucket(s2, key, k).len());
}

/// Whether a key occurs at all depends only on the records as a multiset.
proof fn lemma_keys_of_multiset<K>(
    s1: Seq<FileModel>,
    s2: Seq<FileModel>,
    key: spec_fn(FileModel) -> K,
    k: K,
)
    requires
        s1.to_multiset() == s2.to_multiset(),
    ensures
        keys_of(s1, key).contains(k) <==> keys_of(s2, key).contains(k),
{
    broadcast use vstd::seq_lib::group_to_multiset_ensures;

    lemma_keys_of_contains(s1, key, k);
    lemma_keys_of_contains(s2, key, k);
    if exists|j: int| 0 <= j < s1.len() && key(s1[j]) == k {
        let j = choose|j: int| 0 <= j < s1.len() && key(s1[j]) == k;
        assert(s1.contains(s1[j]));
        assert(s2.to_multiset().count(s1[j]) > 0);
        assert(s2.contains(s1[j]));
        let w = choose|w: int| 0 <= w < s2.len() && s2[w] == s1[j];
        assert(key(s2[w]) == k);
    }
    if exists|j: int| 0 <= j < s2.len() && key(s2[j]) == k {
        let j = choose|j: int| 0 <= j < s2.len() && key(s2[j]) == k;
        assert(s2.contains(s2[j]));
        assert(s1.to_multiset().count(s2[j]) > 0);
        assert(s1.contains(s2[j]));
        let w = choose|w: int| 0 <= w < s1.len() && s1[w] == s2[j];
        assert(key(s1[w]) == k);
    }
}

/// `gb` names a group of the grouping of `sb` holding the same records, as a
/// multiset, as group `ga` of the grouping of `sa`.
pub open spec fn matched_in<K>(
    sa: Seq<FileModel>,
    sb: Seq<FileModel>,
    key: spec_fn(FileModel) -> K,
    ga: int,
) -> bool {
    exists|gb: int|
        0 <= gb < grouping(sb, key).len() && (#[trigger] grouping(sb, key)[gb]).to_multiset()
            == grouping(sa, key)[ga].to_multiset()
}

/// Law (idempotence): two runs that see the same records — in any order —
/// produce the same duplicate groups, as sets of record-multisets. Each group
/// of the one run has a counterpart in the other holding exactly the same
/// records.
pub proof fn lemma_grouping_order_independent<K>(
    s1: Seq<FileModel>,
    s2: Seq<FileModel>,
    key: spec_fn(FileModel) -> K,
)
    requires
        s1.to_multiset() == s2.to_multiset(),
    ensures
        forall|g1: int| 0 <= g1 < grouping(s1, key).len() ==> #[trigger] matched_in(s1, s2, key, g1),
        forall|g2: int| 0 <= g2 < grouping(s2, key).len() ==> #[trigger] matched_in(s2, s1, key, g2),
{
    assert forall|g1: int| 0 <= g1 < grouping(s1, key).len() implies #[trigger] matched_in(
        s1,
        s2,
        key,
        g1,
    ) by {
        lemma_grouping_half(s1, s2, key, g1);
    }
    assert forall|g2: int| 0 <= g2 < grouping(s2, key).len() implies #[trigger] matched_in(
        s2,
        s1,
        key,
        g2,
    ) by {
        lemma_grouping_half(s2, s1, key, g2);
    }
}

/// One direction of the idempotence law.
proof fn lemma_grouping_half<K>(
    sa: Seq<FileModel>,
    sb: Seq<FileModel>,
    key: spec_fn(FileModel) -> K,
    ga: int,
)
    requires
        sa.to_multiset() == sb.to_multiset(),
        0 <= ga < grouping(sa, key).len(),
    ensures
        matched_in(sa, sb, key, ga),
{
    let k = dup_keys(sa, key)[ga];
    lemma_grouping_index(sa, key, ga);
    keys_of(sa, key).lemma_filter_contains_rev(is_dup(sa, key), k);
    assert(dup_keys(sa, key).contains(k)) by {
        assert(dup_keys(sa, key)[ga] == k);
    }
    lemma_keys_of_multiset(sa, sb, key, k);
    lemma_bucket_multiset(sa, sb, key, k);
    assert(is_dup(sb, key)(k)) by {
        assert(bucket(sb, key, k).len() >= 2);
    }
    let ksb = keys_of(sb, key);
    let w = choose|w: int| 0 <= w < ksb.len() && ksb[w] == k;
    ksb.lemma_filter_contains(is_dup(sb, key), w);
    let dkb = dup_keys(sb, key);
    let gb = choose|gb: int| 0 <= gb < dkb.len() && dkb[gb] == k;
    lemma_grouping_index(sb, key, gb);
    assert(grouping(sb, key)[gb].to_multiset() == grouping(sa, key)[ga].to_multiset());
}

/// The members of a list of groups, laid end to end.
pub open spec fn concat_all(gs: Seq<Seq<FileModel>>) -> Seq<FileModel>
    decreases gs.len(),
{
    if gs.len() == 0 {
        Seq::empty()
    } else {
        concat_all(gs.drop_last()) + gs.last()
    }
}

/// Flatten the size groups into the single list of candidates handed to the
/// content hasher: every member of every group, group by group, in order.
pub fn flatten_groups(groups: &Vec<SizeGroup>) -> (out: Vec<FileResult>)
    ensures
        models(out@) == concat_all(size_group_models(groups@)),
{
    let ghost gm = size_group_models(groups@);
    let mut out: Vec<FileResult> = Vec::new();
    let mut i: usize = 0;
    while i < groups.len()
        invariant
            i <= groups@.len(),
            gm == size_group_models(groups@),
            models(out@) == concat_all(gm.take(i as int)),
        decreases groups@.len() - i,
    {
        let ghost mem = models(groups@[i as int].members@);
        proof {
            assert(gm[i as int] == size_group_model()(groups@[i as int]));
        }
        let mut j: usize = 0;
        while j < groups[i].members.len()
            invariant
                i < groups@.len(),
                j <= groups@[i as int].members@.len(),
                gm == size_group_models(groups@),
                mem == models(groups@[i as int].members@),
                mem.len() == groups@[i as int].members@.len(),
                models(out@) == concat_all(gm.take(i as int)) + mem.take(j as int),
            decreases groups@[i as int].members@.len() - j,
        {
            let r = groups[i].members[j].clone();
            proof {
                assert(mem[j as int] == to_model()(groups@[i as int].members@[j as int]));
                assert(r@ == mem[j as int]);
                out@.lemma_push_map_commute(to_model(), r);
                mem.lemma_take_succ_push(j as int);
                assert(concat_all(gm.take(i as int)) + mem.take(j as int).push(mem[j as int])
                    =~= (concat_all(gm.take(i as int)) + mem.take(j as int)).push(mem[j as int]));
            }
            out.push(r);
            j = j + 1;
        }
        proof {
            mem.lemma_take_len();
            gm.lemma_take_succ_push(i as int);
            assert(gm.take(i as int).push(gm[i as int]).drop_last() =~= gm.take(i as int));
            assert(concat_all(gm.take(i + 1)) == concat_all(gm.take(i as int).push(gm[i as int])));
            assert(concat_all(gm.take(i as int).push(gm[i as int])) == concat_all(gm.take(i as int))
                + gm[i as int]);
        }
        i = i + 1;
    }
    proof {
        gm.lemma_take_len();
    }
    out
}

} // verus!
