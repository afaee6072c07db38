//! Deterministic ordering of a group's members: lexicographic by path, so
//! that reports are stable and reproducible whatever order the parallel
//! traversal delivered the files in.

use vstd::prelude::*;

use vstd::string::StrSliceExecFns;

use crate::file_result::{models, to_model, FileModel, FileResult};

verus! {

broadcast use {Seq::group_seq_extra, vstd::seq_lib::group_to_multiset_ensures};

/// Lexicographic order on character sequences, by code point.
pub open spec fn lex_le(a: Seq<char>, b: Seq<char>) -> bool
    decreases a.len(),
{
    if a.len() == 0 {
        true
    } else if b.len() == 0 {
        false
    } else if (a[0] as u32) != (b[0] as u32) {
        (a[0] as u32) < (b[0] as u32)
    } else {
        lex_le(a.drop_first(), b.drop_first())
    }
}

/// Lexicographic order is total.
pub proof fn lemma_lex_total(a: Seq<char>, b: Seq<char>)
    ensures
        lex_le(a, b) || lex_le(b, a),
    decreases a.len(),
{
    if a.len() == 0 {
    } else if b.len() == 0 {
    } else if (a[0] as u32) != (b[0] as u32) {
    } else {
        lemma_lex_total(a.drop_first(), b.drop_first());
    }
}

/// Lexicographic order is transitive.
pub proof fn lemma_lex_trans(a: Seq<char>, b: Seq<char>, c: Seq<char>)
    requires
        lex_le(a, b),
        lex_le(b, c),
    ensures
        lex_le(a, c),
    decreases a.len(),
{
    if a.len() == 0 {
    } else if b.len() == 0 {
    } else if c.len() == 0 {
    } else {
        if (a[0] as u32) == (b[0] as u32) && (b[0] as u32) == (c[0] as u32) {
            lemma_lex_trans(a.drop_first(), b.drop_first(), c.drop_first());
        }
    }
}

/// Whether `a` comes no later than `b` in lexicographic path order.
fn path_le(a: &String, b: &String) -> (r: bool)
    ensures
        r == lex_le(a@, b@),
{
    let an = a.as_str().unicode_len();
    let bn = b.as_str().unicode_len();
    let mut i: usize = 0;
    proof {
        assert(a@.skip(0) =~= a@);
        assert(b@.skip(0) =~= b@);
    }
    loop
        invariant
            i <= an,
            i <= bn,
            an == a@.len(),
            bn == b@.len(),
            lex_le(a@, b@) == lex_le(a@.skip(i as int), b@.skip(i as int)),
        decreases an - i,
    {
        if i == an {
            proof {
                assert(a@.skip(i as int).len() == 0);
            }
            return true;
        }
        if i == bn {
            proof {
                assert(b@.skip(i as int).len() == 0);
                assert(a@.skip(i as int).len() > 0);
            }
            return false;
        }
        let ca = a.as_str().get_char(i);
        let cb = b.as_str().get_char(i);
        proof {
            assert(a@.skip(i as int)[0] == a@[i as int]);
            assert(b@.skip(i as int)[0] == b@[i as int]);
        }
        if ca != cb {
            return (ca as u32) < (cb as u32);
        }
        proof {
            assert(a@.skip(i as int).drop_first() =~= a@.skip(i + 1));
            assert(b@.skip(i as int).drop_first() =~= b@.skip(i + 1));
        }
        i = i + 1;
    }
}

/// The records of `s` stand in lexicographic path order up to position `n`.
pub open spec fn paths_sorted_to(s: Seq<FileModel>, n: int) -> bool {
    forall|x: int, y: int| 0 <= x < y < n && y < s.len() ==> lex_le(s[x].path, s[y].path)
}

/// The records of `s` stand in lexicographic path order.
pub open spec fn paths_sorted(s: Seq<FileModel>) -> bool {
    paths_sorted_to(s, s.len() as int)
}

/// Exchanging two positions keeps a sequence's multiset.
proof fn lemma_swap_multiset<A>(s: Seq<A>, x: int, y: int)
    requires
        0 <= x < s.len(),
        0 <= y < s.len(),
    ensures
        s.update(x, s[y]).update(y, s[x]).to_multiset() == s.to_multiset(),
{
    broadcast use vstd::multiset::group_multiset_axioms;

    let s1 = s.update(x, s[y]);
    let s2 = s1.update(y, s[x]);
    assert(s.contains(s[x]));
    assert(s.contains(s[y]));
    assert(s.to_multiset().count(s[x]) > 0);
    assert(s.to_multiset().count(s[y]) > 0);
    assert(s1[y] == s[y]);
    assert(s2.to_multiset() =~= s.to_multiset()) by {
        assert(s1.to_multiset() == s.to_multiset().insert(s[y]).remove(s[x]));
        assert(s2.to_multiset() == s1.to_multiset().insert(s[x]).remove(s[y]));
    }
}

/// Mapping to models commutes with updating one position.
proof fn lemma_models_update(s: Seq<FileResult>, i: int, r: FileResult)
    requires
        0 <= i < s.len(),
    ensures
        models(s.update(i, r)) == models(s).update(i, r@),
{
    assert(models(s.update(i, r)) =~= models(s).update(i, r@));
}

/// Exchange two member positions.
fn swap_members(v: &mut Vec<FileResult>, x: usize, y: usize)
    requires
        x < old(v)@.len(),
        y < old(v)@.len(),
    ensures
        final(v)@ == old(v)@.update(x as int, old(v)@[y as int]).update(
            y as int,
            old(v)@[x as int],
        ),
{
    let a = v[x].clone();
    let b = v[y].clone();
    v.set(x, b);
    v.set(y, a);
}

/// Reorder members lexicographically by path. The records themselves are
/// kept exactly — same multiset — so a sorted group still answers to the
/// grouping laws; only the arrival order within the group is replaced by the
/// stable path order that the report uses.
pub fn sort_members_by_path(members: &mut Vec<FileResult>)
    ensures
        models(final(members)@).to_multiset() == models(old(members)@).to_multiset(),
        models(final(members)@).len() == models(old(members)@).len(),
        paths_sorted(models(final(members)@)),
{
    let ghost m0 = models(members@);
    proof {
        broadcast use vstd::seq_lib::group_to_multiset_ensures;

        assert(m0.to_multiset().len() == m0.len());
    }
    let mut i: usize = 1;
    while i < members.len()
        invariant
            i >= 1,
            models(members@).to_multiset() == m0.to_multiset(),
            models(members@).len() == m0.len(),
            paths_sorted_to(models(members@), i as int),
        decreases members@.len() - i,
    {
        let mut j: usize = i;
        loop
            invariant
                j <= i,
                i < members@.len(),
                models(members@).to_multiset() == m0.to_multiset(),
                models(members@).len() == m0.len(),
                forall|x: int, y: int|
                    0 <= x < y < j ==> lex_le(
                        models(members@)[x].path,
                        models(members@)[y].path,
                    ),
                forall|x: int, y: int|
                    j <= x < y <= i ==> lex_le(
                        models(members@)[x].path,
                        models(members@)[y].path,
                    ),
                forall|x: int, y: int|
                    0 <= x < j && j + 1 <= y <= i ==> lex_le(
                        models(members@)[x].path,
                        models(members@)[y].path,
                    ),
            ensures
                j <= i,
                i < members@.len(),
                models(members@).to_multiset() == m0.to_multiset(),
                models(members@).len() == m0.len(),
                forall|x: int, y: int|
                    0 <= x < y < j ==> lex_le(
                        models(members@)[x].path,
                        models(members@)[y].path,
                    ),
                forall|x: int, y: int|
                    j <= x < y <= i ==> lex_le(
                        models(members@)[x].path,
                        models(members@)[y].path,
                    ),
                forall|x: int, y: int|
                    0 <= x < j && j + 1 <= y <= i ==> lex_le(
                        models(members@)[x].path,
                        models(members@)[y].path,
                    ),
                j == 0 || lex_le(
                    models(members@)[j - 1].path,
                    models(members@)[j as int].path,
                ),
            decreases j,
        {
            if j == 0 {
                break;
            }
            let in_order = path_le(&members[j - 1].file_path, &members[j].file_path);
            proof {
                assert(models(members@)[j - 1] == to_model()(members@[j - 1]));
                assert(models(members@)[j as int] == to_model()(members@[j as int]));
            }
            if in_order {
                break;
            }
            let ghost vb = members@;
            let ghost before = models(vb);
            proof {
                lemma_lex_total(before[j - 1].path, before[j as int].path);
            }
            swap_members(members, j - 1, j);
            proof {
                assert(before[j - 1] == to_model()(vb[j - 1]));
                assert(before[j as int] == to_model()(vb[j as int]));
                lemma_models_update(vb, j - 1, vb[j as int]);
                lemma_models_update(vb.update(j - 1, vb[j as int]), j as int, vb[j - 1]);
                lemma_swap_multiset(before, j - 1, j as int);
                let after = models(members@);
                assert(after == before.update(j - 1, before[j as int]).update(
                    j as int,
                    before[j - 1],
                ));
                assert(after[j - 1] == before[j as int]);
                assert(after[j as int] == before[j - 1]);
                assert(forall|t: int|
                    0 <= t < after.len() && t != j - 1 && t != j ==> after[t] == before[t]);
                assert(lex_le(after[j - 1].path, after[j as int].path));
            }
            j = j - 1;
        }
        proof {
            let s = models(members@);
            assert forall|x: int| 0 <= x < j implies lex_le(s[x].path, s[j as int].path) by {
                if x < j - 1 {
                    lemma_lex_trans(s[x].path, s[j - 1].path, s[j as int].path);
                }
            }
            assert(paths_sorted_to(s, i + 1));
        }
        i = i + 1;
    }
}

} // verus!
